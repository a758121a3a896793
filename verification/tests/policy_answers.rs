use blackhole::admission::cap_answer;
use blackhole::blocklist::BlocklistSource;
use blackhole::buckets::abuse_network_key;
use blackhole::cache::{kept_seconds, CacheKey, DnsCache};
use blackhole::country::{country_map_changed, country_map_is_fresh, source_sha256, CountrySource,
    FileFacts, LocalMap};
use blackhole::dns::{encode_name, synthetic_honeypot_answer, DnsAnswer, DnsAnswerRecord, DnsQuery};
use blackhole::net::IpAddr;
use blackhole::policy::{PolicyError, MAX_RULES};
use blackhole::query::QueryView;
use blackhole::recording::{DecisionRecord, ExportEvent, IncidentExport, LogKind, RecordingBudget,
    MAX_ADMIN_LOG_ENTRIES};
use blackhole::regex_rules::MAX_REGEX_PATTERN_BYTES;
use blackhole::rewrites::MAX_REWRITES;
use blackhole::serving::{Next, UpstreamSlot};
use blackhole::status::expanded_rule_count;
use blackhole::upstream::{upstream_failure_cause, validate_upstream_answer, UpstreamFailure};
use blackhole::{Action, AdmissionConfig, CacheConfig, ClientGroupConfig, Config, CountryPolicyConfig,
    HoneypotConfig, Mode, Policy, QueryRecordingRedaction, RegexRuleConfig, ReloadState, RewriteConfig,
    RuleConfig, ServiceProfileConfig};

const SECOND: u64 = 1_000_000;

fn ip(text: &str) -> IpAddr {
    IpAddr::parse(text).expect("address")
}

fn no_map() -> CountrySource {
    CountrySource::Remote(Err("no map was read".into()))
}

fn start(config: Config) -> Result<Policy, PolicyError> {
    let files: [BlocklistSource; 0] = [];
    Policy::new(config, &files, &no_map())
}

fn rule(id: u32, domain: &str, action: Action) -> RuleConfig {
    RuleConfig {
        enabled: true,
        id,
        domain: domain.into(),
        action,
        priority: 0,
        qtype: None,
        qtypes: Vec::new(),
        qclass: None,
        qclasses: Vec::new(),
        client: None,
        client_cidr: None,
        client_cidrs: Vec::new(),
        client_identity: None,
    }
}

fn regex(id: u32, pattern: &str, action: Action) -> RegexRuleConfig {
    RegexRuleConfig {
        enabled: true,
        id,
        pattern: pattern.into(),
        action,
        priority: 0,
        qtype: None,
        qtypes: Vec::new(),
        qclass: None,
        qclasses: Vec::new(),
        client: None,
        client_cidrs: Vec::new(),
    }
}

fn profile(id: u32, name: &str, domains: &[&str], action: Action) -> ServiceProfileConfig {
    ServiceProfileConfig {
        id,
        name: name.into(),
        enabled: true,
        domains: domains.iter().map(|domain| domain.to_string()).collect(),
        action,
        groups: Vec::new(),
        client_identity: None,
        priority: 0,
        client_cidrs: Vec::new(),
        qtype: None,
        qtypes: Vec::new(),
        qclass: None,
        qclasses: Vec::new(),
    }
}

fn group(name: &str, addresses: &[&str], cidrs: &[&str]) -> ClientGroupConfig {
    ClientGroupConfig {
        name: name.into(),
        enabled: true,
        client_addresses: addresses.iter().map(|text| ip(text)).collect(),
        client_cidrs: cidrs.iter().map(|text| text.to_string()).collect(),
    }
}

fn ask(name: &str, qtype: u16) -> DnsQuery {
    DnsQuery { id: 1, recursion_desired: true, name: name.into(), qtype, qclass: 1 }
}

fn query(name: &str) -> DnsQuery {
    ask(name, 1)
}

fn packet(id: u16, name: &str, qtype: u16) -> Vec<u8> {
    let mut wire = vec![(id >> 8) as u8, id as u8, 1, 0, 0, 1, 0, 0, 0, 0, 0, 0];
    wire.extend(encode_name(name).expect("name"));
    wire.extend([(qtype >> 8) as u8, qtype as u8, 0, 1]);
    wire
}

/// Serves one request from its admission to the answer, without a resolver.
fn serve(policy: &mut Policy, client: Option<IpAddr>, asked: &DnsQuery, selected: Option<Action>) -> DnsAnswer {
    let entry = policy.enter(true, client, asked, SECOND);
    let answer = if let Some(answer) = entry.turned_away {
        answer
    } else {
        let action = policy.choose_action(selected, false, asked, client);
        if let (None, Some(action)) = (selected, action) {
            policy.record_decision(action, asked.qtype, asked.qclass, 1_000);
        }
        let next = match policy.answer_step(asked, action) {
            Next::Acquire => {
                policy
                    .slot_asked(asked, action.expect("action"), UpstreamSlot::Unconfigured, 1_000)
                    .next
            }
            other => other,
        };
        match next {
            Next::Reply { answer, .. } => answer,
            _ => panic!("expected a reply"),
        }
    };
    if let Some(permit) = entry.permit {
        policy.leave(permit);
    }
    answer
}

fn local_map(contents: &str) -> CountrySource {
    let facts = FileFacts { length: contents.len() as u64, modified: Some(0) };
    CountrySource::Local(LocalMap {
        before: Ok(facts),
        time_fault: String::new(),
        now: 0,
        contents: Ok(contents.into()),
        after: Ok(facts),
    })
}

// ---- the country map -----------------------------------------------------------------

#[test]
fn country_map_denies_and_observes_adapter_owned_clients() {
    let initial_map = "US 192.0.2.0/24 US-CA AS64500\nCA 198.51.100.0/24 CA-ON 64501\n";
    let config = Config {
        country_policy: CountryPolicyConfig {
            map_path: Some("country-map.txt".into()),
            expected_sha256: None,
            max_age_secs: None,
            reload_interval_secs: 0,
            deny: vec!["us".into()],
            observe: Vec::new(),
            deny_regions: vec!["us-ca".into()],
            observe_regions: Vec::new(),
            deny_asns: Vec::new(),
            observe_asns: vec![64501],
        },
        ..Default::default()
    };
    let initial = local_map(initial_map);
    let mut policy = Policy::new(config, &[], &initial).expect("valid country policy");
    let denied = ip("192.0.2.10");
    let observed = ip("198.51.100.10");
    let outside = ip("203.0.113.10");
    {
        let country_policy = policy.tables.country_policy.as_ref().expect("country policy");
        assert!(country_policy.denied(denied));
        assert!(country_policy.observed(observed));
        assert!(!country_policy.denied(outside));
        assert!(!country_policy.observed(outside));
    }
    assert_eq!(policy.reload_country_policy_if_changed(&initial), Ok(ReloadState::Unchanged));
    assert_eq!(policy.reload_country_policy(&initial), Ok(ReloadState::Unchanged));
    let source = |policy: &Policy| {
        let map = policy.tables.country_policy.as_ref().expect("country policy");
        (map.source_fingerprint, map.source_sha256.clone())
    };
    let unchanged = source(&policy);
    assert_eq!(unchanged.1, source_sha256(initial_map.as_bytes()));
    let unchanged_generation = policy.policy_status().policy_generation;
    let longer = local_map(
        "US 192.0.2.0/24 US-CA AS64500\nCA 198.51.100.0/24 CA-ON 64501\nGB 203.0.113.0/24 GB-LND 64502\n",
    );
    assert_eq!(policy.reload_country_policy_if_changed(&longer), Ok(ReloadState::Published));
    assert_eq!(policy.policy_status().policy_generation, unchanged_generation + 1);
    let changed = source(&policy);
    assert_ne!(changed.0, unchanged.0);
    let mut pinned_config = policy.tables.country_policy_config.clone();
    pinned_config.expected_sha256 = Some("00".repeat(32));
    assert!(policy.replace_country_policy(&pinned_config, &longer).is_err());
    assert_eq!(source(&policy), changed);
    assert!(policy.reload_country_policy(&local_map("not-a-country-map\n")).is_err());
    assert_eq!(source(&policy), changed);
    {
        let country_policy = policy.tables.country_policy.as_ref().expect("previous policy");
        assert!(country_policy.denied(denied));
        assert!(country_policy.observed(observed));
    }
    let asked = query("example.com.");
    assert_eq!(serve(&mut policy, Some(denied), &asked, None).rcode, 5);
    assert_eq!(serve(&mut policy, Some(outside), &asked, None).rcode, 0);
    let entry = policy.enter(true, Some(observed), &asked, 5 * SECOND);
    assert_eq!(entry.country.as_deref(), Some("CA"));
}

#[test]
fn country_map_freshness_is_bounded_and_clock_skew_fails_closed() {
    let second: i128 = 1_000_000_000;
    let now = 10_000 * second;
    assert!(country_map_is_fresh(now - 60 * second, now, 60));
    assert!(!country_map_is_fresh(now - 61 * second, now, 60));
    assert!(!country_map_is_fresh(now + second, now, 60));
    assert!(!country_map_is_fresh(now, now, 0));
}

#[test]
fn country_map_change_detection_rejects_length_changes() {
    let initial = FileFacts { length: 16, modified: Some(7) };
    let longer = FileFacts { length: 36, modified: Some(7) };
    assert!(country_map_changed(initial, longer));
    assert!(!country_map_changed(initial, initial));
}

#[test]
fn country_map_rejects_cross_dimension_deny_observe_overlap() {
    let config = Config {
        country_policy: CountryPolicyConfig {
            map_path: Some("country-conflict.txt".into()),
            expected_sha256: None,
            max_age_secs: None,
            reload_interval_secs: 0,
            deny: vec!["US".into()],
            observe: Vec::new(),
            deny_regions: Vec::new(),
            observe_regions: vec!["US-CA".into()],
            deny_asns: Vec::new(),
            observe_asns: Vec::new(),
        },
        ..Default::default()
    };
    let map = local_map("US 192.0.2.0/24 US-CA AS64500\n");
    assert!(Policy::new(config, &[], &map).is_err());
}

// ---- the cache -----------------------------------------------------------------------

fn key(name: &str) -> CacheKey {
    CacheKey { name: name.into(), qtype: 1, qclass: 1 }
}

#[test]
fn cache_bounds_entries_and_serves_positive_and_negative_answers() {
    let config = CacheConfig {
        max_entries: 1,
        max_ttl_secs: 60,
        stale_ttl_secs: 30,
        negative_ttl_secs: 30,
    };
    let mut cache = DnsCache::new(&config);
    let first = key("one.example");
    let second = key("two.example");
    let now = 10_000;
    assert!(!cache.insert(first.clone(), DnsAnswer::ok(Vec::new()), now));
    assert!(cache.fresh(&first, now).is_some());
    assert!(cache.insert(second.clone(), DnsAnswer::name_error(), now));
    assert_eq!(cache.entries.len(), 1);
    assert!(cache.fresh(&first, now).is_none());
    assert_eq!(cache.fresh(&second, now), Some(DnsAnswer::name_error()));
}

#[test]
fn expired_entries_are_available_only_inside_the_stale_window() {
    let config = CacheConfig::default();
    let mut cache = DnsCache::new(&config);
    let stale = key("stale.example");
    let now = 100_000;
    cache.insert(stale.clone(), DnsAnswer::name_error(), now);
    cache.entries[0].expires_at = (now - 1_000) as u128;
    assert!(cache.fresh(&stale, now).is_none());
    assert!(cache.stale(&stale, now).is_some());
    cache.entries[0].stale_until = (now - 1_000) as u128;
    assert!(cache.stale(&stale, now).is_none());
    assert!(cache.entries.is_empty());
}

fn long_answer(name: &str) -> DnsAnswer {
    DnsAnswer::ok(vec![DnsAnswerRecord {
        name: name.into(),
        rtype: 1,
        rclass: 1,
        ttl: u32::MAX,
        rdata: vec![192, 0, 2, 1],
    }])
}

#[test]
fn cache_clamps_protocol_ttl_to_the_configured_bound() {
    let config = CacheConfig {
        max_entries: 4,
        max_ttl_secs: 60,
        stale_ttl_secs: 30,
        negative_ttl_secs: 120,
    };
    let mut cache = DnsCache::new(&config);
    let now: u64 = 5_000;
    cache.insert(key("long.example"), long_answer("long.example."), now);
    let entry = &cache.entries[0];
    assert!(entry.expires_at <= (now + 60_000) as u128);
    assert!(entry.expires_at > (now + 59_000) as u128);
}

#[test]
fn emitted_answers_clamp_ttl_to_the_configured_bound() {
    let mut config = Config::default();
    config.cache.max_ttl_secs = 60;
    let policy = start(config).expect("valid cache config");
    let answer = cap_answer(
        &policy.tables.admission,
        policy.tables.cache.config.max_ttl_secs,
        "ttl.example",
        &long_answer("ttl.example"),
    );
    assert_eq!(answer.records[0].ttl, 60);
}

#[test]
fn cache_rejects_a_zero_ttl_ceiling() {
    let mut config = Config::default();
    config.cache.max_ttl_secs = 0;
    assert!(matches!(start(config), Err(PolicyError::InvalidCache { .. })));
}

#[test]
fn cache_ttl_telemetry_reports_effective_positive_and_negative_ttls() {
    let mut config = Config::default();
    config.cache.max_ttl_secs = 120;
    config.cache.negative_ttl_secs = 17;
    let positive = DnsAnswer::ok(vec![DnsAnswerRecord {
        name: "answer.example.".into(),
        rtype: 1,
        rclass: 1,
        ttl: 900,
        rdata: vec![93, 184, 216, 34],
    }]);
    assert_eq!(kept_seconds(&positive, &config.cache), 120);
    assert_eq!(kept_seconds(&DnsAnswer::name_error(), &config.cache), 17);
}

// ---- rules with expressions ----------------------------------------------------------

#[test]
fn regex_rules_block_matching_names_and_honor_filters() {
    let mut config = Config::default();
    config.policy.default_action = Action::Pass;
    let mut ads = regex(77, r"(^|\.)ads[0-9]*\.example$", Action::Nxdomain);
    ads.priority = 4;
    ads.qtypes = vec![1, 28];
    ads.qclasses = vec![1];
    config.policy.regex_rules = vec![ads];
    let policy = start(config).expect("valid regex rule");
    let rcode = |name: &str, qtype: u16| policy.evaluate(&ask(name, qtype)).unwrap().rcode;
    assert_eq!(rcode("ads.example.", 1), 3);
    assert_eq!(rcode("ads2.example.", 1), 3);
    assert_eq!(rcode("ads.example.", 28), 3);
    assert_eq!(rcode("badexample.", 1), 0);
    let wire = packet(7, "ads.example.", 1);
    let view = QueryView::parse(&wire).expect("parse regex query");
    assert_eq!(policy.action_for_view(view), Action::Nxdomain);
}

#[test]
fn disabled_regex_rules_remain_configured_but_do_not_match() {
    let mut config = Config::default();
    config.policy.default_action = Action::Pass;
    let mut disabled = regex(79, "^disabled\\.example$", Action::Nxdomain);
    disabled.enabled = false;
    disabled.priority = 1;
    config.policy.regex_rules = vec![disabled];
    let policy = start(config).expect("valid disabled regex rule");
    assert_eq!(policy.evaluate(&query("disabled.example.")).expect("pass answer").rcode, 0);
    assert!(!policy.tables.regex_rules.rules[0].enabled);
}

#[test]
fn regex_rules_honor_client_network_scopes() {
    let mut config = Config::default();
    config.policy.default_action = Action::Pass;
    let mut scoped = regex(78, r"(^|\.)ads\.example$", Action::Nxdomain);
    scoped.priority = 4;
    scoped.client_cidrs = vec!["192.0.2.0/24".into()];
    config.policy.regex_rules = vec![scoped];
    let policy = start(config).expect("valid scoped regex rule");
    let wire = packet(8, "ads.example.", 1);
    let view = QueryView::parse(&wire).expect("parse regex query");
    assert_eq!(
        policy.action_for_view_with_client(view, Some(ip("192.0.2.44"))),
        Action::Nxdomain
    );
    assert_eq!(
        policy.action_for_view_with_client(view, Some(ip("198.51.100.44"))),
        Action::Pass
    );
}

#[test]
fn explicit_domain_rules_win_over_matching_regex_rules() {
    let mut config = Config::default();
    config.policy.default_action = Action::Pass;
    config.policy.rules = vec![rule(1, "ads.example", Action::Pass)];
    let mut ads = regex(2, r"(^|\.)ads\.example$", Action::Nxdomain);
    ads.priority = 100;
    config.policy.regex_rules = vec![ads];
    let policy = start(config).expect("valid mixed policy");
    assert_eq!(policy.evaluate(&query("ads.example.")).unwrap().rcode, 0);
}

#[test]
fn regex_rules_reject_invalid_or_oversized_patterns() {
    let mut invalid = Config::default();
    invalid.policy.regex_rules = vec![regex(1, "[", Action::Drop)];
    assert!(matches!(start(invalid), Err(PolicyError::InvalidRegex { id: 1, .. })));

    let mut invalid_scope = Config::default();
    let mut scoped = regex(3, "ads", Action::Drop);
    scoped.client_cidrs = vec!["not-a-cidr".into()];
    invalid_scope.policy.regex_rules = vec![scoped];
    assert!(matches!(start(invalid_scope), Err(PolicyError::InvalidClientCidr { id: 3, .. })));

    let mut oversized = Config::default();
    oversized.policy.regex_rules =
        vec![regex(2, &"x".repeat(MAX_REGEX_PATTERN_BYTES + 1), Action::Drop)];
    assert!(matches!(start(oversized), Err(PolicyError::InvalidRegex { id: 2, .. })));
}

// ---- actions and local answers -------------------------------------------------------

#[test]
fn explicit_actions_have_distinct_wire_contracts() {
    let actions = [
        ("reject.example", Action::Reject),
        ("nxdomain.example", Action::Nxdomain),
        ("sink.example", Action::Sink),
        ("honeypot.example", Action::Honeypot),
        ("pass.example", Action::Pass),
        ("observe.example", Action::Observe),
        ("ignore.example", Action::Ignore),
        ("drop.example", Action::Drop),
        ("forward.example", Action::Forward),
    ];
    for (domain, action) in actions {
        let mut config = Config::default();
        config.policy.rules = vec![rule(1, domain, action)];
        let policy = start(config).expect("valid policy");
        let answer = policy.evaluate(&query(domain));
        match action {
            Action::Reject => assert_eq!(answer.unwrap().rcode, 5),
            Action::Nxdomain => assert_eq!(answer.unwrap().rcode, 3),
            Action::Sink => assert!(answer.unwrap().records.is_empty()),
            Action::Honeypot => assert_eq!(answer.unwrap().records.len(), 1),
            Action::Pass | Action::Observe => assert!(answer.unwrap().records.is_empty()),
            Action::Ignore | Action::Drop | Action::Forward => assert!(answer.is_none()),
        }
    }
}

const ADDRESS_1: u32 = 0xc000_0201;
const ADDRESS_2: u32 = 0xc000_0202;

fn rewrite(name: &str, ipv4: Option<u32>, ttl: u32) -> RewriteConfig {
    RewriteConfig { name: name.into(), ipv4, ipv6: None, cname: None, ttl }
}

#[test]
fn local_rewrite_answers_pass_queries_but_explicit_policy_wins() {
    let mut config = Config::default();
    let mut router = rewrite("router.home.arpa", Some(ADDRESS_1), 30);
    router.ipv6 = Some(1);
    config.policy.rewrites = vec![router, rewrite("blocked.home.arpa", Some(ADDRESS_2), 30)];
    config.policy.rules = vec![rule(1, "blocked.home.arpa", Action::Nxdomain)];
    let policy = start(config).expect("valid rewrites");
    let answer = policy.evaluate(&ask("router.home.arpa.", 1)).expect("rewrite answer");
    assert_eq!(answer.rcode, 0);
    assert_eq!(answer.records.len(), 1);
    assert_eq!(answer.records[0].rdata, vec![192, 0, 2, 1]);
    let aaaa = policy.evaluate(&ask("router.home.arpa.", 28)).expect("AAAA rewrite answer");
    assert_eq!(aaaa.records.len(), 1);
    assert_eq!(
        aaaa.records[0].rdata,
        vec![0, 0, 0, 0, 0, 0, 0, 0, 0, 0, 0, 0, 0, 0, 0, 1]
    );
    let blocked = policy.evaluate(&ask("blocked.home.arpa.", 1)).expect("policy answer");
    assert_eq!(blocked.rcode, 3);
    assert!(blocked.records.is_empty());
}

#[test]
fn local_cname_rewrite_encodes_target_and_rejects_mixed_records() {
    let mut config = Config::default();
    let mut alias = rewrite("alias.home.arpa", None, 45);
    alias.cname = Some("router.home.arpa".into());
    config.policy.rewrites = vec![alias];
    let policy = start(config).expect("valid CNAME rewrite");
    let answer = policy.evaluate(&ask("alias.home.arpa.", 5)).expect("CNAME answer");
    assert_eq!(answer.records[0].rtype, 5);
    assert_eq!(answer.records[0].ttl, 45);
    assert_eq!(
        answer.records[0].rdata,
        [
            vec![6],
            b"router".to_vec(),
            vec![4],
            b"home".to_vec(),
            vec![4],
            b"arpa".to_vec(),
            vec![0]
        ]
        .concat()
    );

    let mut mixed = Config::default();
    let mut both = rewrite("mixed.home.arpa", Some(ADDRESS_1), 30);
    both.cname = Some("router.home.arpa".into());
    mixed.policy.rewrites = vec![both];
    assert!(matches!(start(mixed), Err(PolicyError::InvalidRewrite { .. })));
}

#[test]
fn wildcard_rewrite_matches_one_label_and_exact_wins() {
    let mut config = Config::default();
    config.policy.rewrites = vec![
        rewrite("*.home.arpa", Some(0xc000_020a), 30),
        rewrite("router.home.arpa", Some(0xc000_0214), 40),
    ];
    let policy = start(config).expect("valid wildcard rewrites");
    let wildcard = policy.evaluate(&query("client.home.arpa.")).expect("wildcard answer");
    assert_eq!(wildcard.records[0].rdata, vec![192, 0, 2, 10]);
    assert_eq!(wildcard.records[0].name, "client.home.arpa.");
    let exact = policy.evaluate(&query("router.home.arpa.")).expect("exact answer");
    assert_eq!(exact.records[0].rdata, vec![192, 0, 2, 20]);
    assert!(policy
        .evaluate(&query("deep.client.home.arpa."))
        .is_some_and(|answer| answer.records.is_empty()));
}

#[test]
fn local_rewrites_fail_closed_when_invalid_or_oversized() {
    let mut invalid = Config::default();
    invalid.policy.rewrites = vec![rewrite("not a dns name", None, 30)];
    assert!(matches!(start(invalid), Err(PolicyError::InvalidRewrite { .. })));

    for name in ["*", "a.*.example", "*.has space.example"] {
        let mut invalid = Config::default();
        invalid.policy.rewrites = vec![rewrite(name, Some(ADDRESS_1), 30)];
        assert!(
            matches!(start(invalid), Err(PolicyError::InvalidRewrite { .. })),
            "invalid wildcard rewrite name must fail closed: {name}"
        );
    }

    for name in [
        "has space.example",
        "has_underscore.example",
        "-leading.example",
        "trailing-.example",
    ] {
        let mut invalid = Config::default();
        invalid.policy.rewrites = vec![rewrite(name, Some(ADDRESS_1), 30)];
        assert!(
            matches!(start(invalid), Err(PolicyError::InvalidRewrite { .. })),
            "invalid rewrite name must fail closed: {name}"
        );
    }

    let mut oversized = Config::default();
    oversized.policy.rewrites = (0..=MAX_REWRITES)
        .map(|index| rewrite(&format!("host{index}.home.arpa"), Some(ADDRESS_1), 30))
        .collect();
    assert!(matches!(start(oversized), Err(PolicyError::InvalidRewrite { .. })));
}

// ---- profiles and groups -------------------------------------------------------------

#[test]
fn named_service_profiles_compile_into_scoped_authoritative_rules() {
    let mut config = Config::default();
    let mut adult = profile(
        40_000,
        "Adult content",
        &["ads.example", "tracking.example"],
        Action::Nxdomain,
    );
    adult.priority = 10;
    adult.client_cidrs = vec!["192.0.2.0/24".into()];
    adult.qtypes = vec![1, 28];
    adult.qclasses = vec![1];
    config.policy.profiles = vec![adult];
    let policy = start(config).expect("valid service profile");
    let asked = DnsQuery {
        id: 7,
        recursion_desired: true,
        name: "ads.example.".into(),
        qtype: 1,
        qclass: 1,
    };
    let inside = Some(ip("192.0.2.53"));
    assert_eq!(
        policy.decision(&asked, inside).expect("scoped profile decision").action,
        Action::Nxdomain
    );
    assert!(policy.decision(&asked, Some(ip("198.51.100.53"))).is_none());
    assert!(policy.decision(&asked, None).is_none());
    let mut wrong_type = asked.clone();
    wrong_type.qtype = 28;
    assert_eq!(
        policy.decision(&wrong_type, inside).expect("second profile qtype").action,
        Action::Nxdomain
    );
    wrong_type.qtype = 15;
    assert!(policy.decision(&wrong_type, inside).is_none());
    let mut wrong_class = asked;
    wrong_class.qclass = 3;
    assert!(policy.decision(&wrong_class, inside).is_none());
}

#[test]
fn disabled_service_profiles_are_retained_but_do_not_generate_rules() {
    let mut config = Config::default();
    let mut paused = profile(60_000, "paused-profile", &["ads.example"], Action::Nxdomain);
    paused.enabled = false;
    paused.priority = 10;
    config.policy.profiles = vec![paused];
    let policy = start(config).expect("valid disabled profile");
    let answer = policy.evaluate(&query("ads.example.")).expect("default pass answer");
    assert_eq!(answer.rcode, 0);
    let kept = &policy.tables.profiles[0];
    assert!(!kept.enabled);
    assert_eq!(expanded_rule_count(kept, &policy.tables.client_groups), 0);
}

#[test]
fn client_groups_assign_one_profile_to_multiple_networks() {
    let mut config = Config::default();
    config.policy.client_groups = vec![
        group("family", &[], &["192.0.2.0/24", "2001:db8:1::/64"]),
        group("guest", &[], &["198.51.100.0/24"]),
    ];
    let mut blocks = profile(50_000, "family-blocks", &["ads.example"], Action::Nxdomain);
    blocks.groups = vec!["FAMILY".into(), "guest".into()];
    blocks.priority = 10;
    config.policy.profiles = vec![blocks];
    let policy = start(config).expect("valid client groups");
    let asked = query("ads.example.");
    for client in ["192.0.2.53", "2001:db8:1::53", "198.51.100.53"] {
        assert_eq!(
            policy.decision(&asked, Some(ip(client))).expect("group-scoped decision").action,
            Action::Nxdomain
        );
    }
    assert!(policy.decision(&asked, Some(ip("203.0.113.53"))).is_none());
    assert_eq!(expanded_rule_count(&policy.tables.profiles[0], &policy.tables.client_groups), 2);
}

#[test]
fn disabled_client_group_retains_metadata_but_expands_no_rules() {
    let mut config = Config::default();
    let mut family = group("family", &[], &["192.0.2.0/24"]);
    family.enabled = false;
    config.policy.client_groups = vec![family];
    let mut blocks = profile(50_001, "family-blocks", &["ads.example"], Action::Nxdomain);
    blocks.groups = vec!["family".into()];
    blocks.priority = 10;
    config.policy.profiles = vec![blocks];
    let policy = start(config).expect("valid disabled client group");
    assert!(policy.decision(&query("ads.example."), Some(ip("192.0.2.53"))).is_none());
    assert!(!policy.tables.client_groups[0].enabled);
    assert_eq!(expanded_rule_count(&policy.tables.profiles[0], &policy.tables.client_groups), 0);
}

#[test]
fn client_groups_match_exact_addresses_and_cidrs_without_broadening_exact_scope() {
    let mut config = Config::default();
    config.policy.client_groups =
        vec![group("named-clients", &["192.0.2.53"], &["198.51.100.0/24"])];
    let mut named = profile(51_000, "named-policy", &["ads.example"], Action::Reject);
    named.groups = vec!["named-clients".into()];
    config.policy.profiles = vec![named];
    let policy = start(config).expect("valid exact client group");
    let asked = query("ads.example.");
    assert_eq!(
        policy.decision(&asked, Some(ip("192.0.2.53"))).expect("exact client decision").action,
        Action::Reject
    );
    assert!(policy.decision(&asked, Some(ip("192.0.2.54"))).is_none());
    assert_eq!(
        policy.decision(&asked, Some(ip("198.51.100.53"))).expect("CIDR client decision").action,
        Action::Reject
    );
}

#[test]
fn client_groups_reject_unknown_or_ambiguous_scopes() {
    let mut unknown = Config::default();
    let mut ads = profile(1, "ads", &["ads.example"], Action::Nxdomain);
    ads.groups = vec!["missing".into()];
    unknown.policy.profiles = vec![ads];
    assert!(matches!(start(unknown), Err(PolicyError::InvalidProfile { .. })));

    let mut ambiguous = Config::default();
    ambiguous.policy.client_groups = vec![group("family", &[], &["192.0.2.0/24"])];
    let mut ads = profile(2, "ads", &["ads.example"], Action::Nxdomain);
    ads.groups = vec!["family".into()];
    ads.client_cidrs = vec!["198.51.100.0/24".into()];
    ambiguous.policy.profiles = vec![ads];
    assert!(matches!(start(ambiguous), Err(PolicyError::InvalidProfile { .. })));

    let mut duplicate_address = Config::default();
    duplicate_address.policy.client_groups =
        vec![group("family", &["192.0.2.53", "192.0.2.53"], &[])];
    assert!(matches!(start(duplicate_address), Err(PolicyError::InvalidProfile { .. })));
}

#[test]
fn service_profiles_reject_duplicate_names_and_invalid_domains() {
    let mut config = Config::default();
    config.policy.profiles = vec![
        profile(1, "ads", &["ads.example"], Action::Nxdomain),
        profile(2, "ADS", &["tracking.example"], Action::Nxdomain),
    ];
    assert!(matches!(start(config), Err(PolicyError::InvalidProfile { .. })));
}

#[test]
fn service_profiles_enforce_an_aggregate_rule_bound() {
    let mut config = Config::default();
    let per_profile = MAX_RULES / 2 + 1;
    let mut first = profile(10_000, "first", &[], Action::Nxdomain);
    first.domains = vec!["first.example".into(); per_profile];
    let mut second = profile(200_000, "second", &[], Action::Nxdomain);
    second.domains = vec!["second.example".into(); per_profile];
    config.policy.profiles = vec![first, second];
    assert!(matches!(start(config), Err(PolicyError::InvalidProfile { .. })));
}

// ---- limits --------------------------------------------------------------------------

#[test]
fn admission_rejects_any_and_overlong_or_invalid_names() {
    let policy = start(Config::default()).expect("valid policy");
    let rcode = |asked: &DnsQuery| policy.evaluate(asked).unwrap().rcode;
    assert_eq!(rcode(&ask("example.com.", 255)), 5);
    assert_eq!(rcode(&ask(&format!("{}.example.", "a".repeat(250)), 1)), 5);
    assert_eq!(rcode(&ask("bad..example.", 1)), 5);
    let mut zero_type = ask("example.com.", 1);
    zero_type.qtype = 0;
    assert_eq!(rcode(&zero_type), 5);
    let mut zero_class = ask("example.com.", 1);
    zero_class.qclass = 0;
    assert_eq!(rcode(&zero_class), 5);
    let refused = |change: fn(&mut AdmissionConfig)| {
        let mut config = Config::default();
        change(&mut config.admission);
        assert!(start(config).is_err());
    };
    refused(|limits| limits.max_response_records = 0);
    refused(|limits| limits.max_response_bytes = 11);
    refused(|limits| limits.max_response_amplification = 0);
    refused(|limits| limits.max_inflight_requests = 0);
    refused(|limits| limits.max_queries_per_second = 0);
    refused(|limits| limits.max_inflight_per_client = 0);
    refused(|limits| limits.max_queries_per_client_per_second = 0);
    refused(|limits| limits.max_response_bytes_per_second = 0);
}

#[test]
fn admission_reload_publishes_limits_and_rejects_capacity_changes() {
    let mut policy = start(Config::default()).expect("valid policy");
    let replacement = AdmissionConfig {
        reject_any: true,
        max_queries_per_second: 7,
        ..Default::default()
    };
    assert_eq!(policy.reload_admission(&replacement), Ok(ReloadState::Published));
    assert_eq!(policy.reload_admission(&replacement), Ok(ReloadState::Unchanged));
    let limits = policy.admission_config();
    assert!(limits.reject_any);
    assert_eq!(limits.max_queries_per_second, 7);

    let mut capacity_change = replacement.clone();
    capacity_change.max_inflight_requests += 1;
    assert!(matches!(
        policy.reload_admission(&capacity_change),
        Err(PolicyError::InvalidAdmission { .. })
    ));
    assert_eq!(
        policy.admission_config().max_inflight_requests,
        AdmissionConfig::default().max_inflight_requests
    );
}

#[test]
fn configured_client_denylist_rejects_exact_addresses_and_networks() {
    let mut config = Config::default();
    config.admission.deny_client_cidrs = vec!["192.0.2.10/32".into(), "2001:db8:42::/48".into()];
    let mut policy = start(config).expect("valid denylist");
    let exact = ip("192.0.2.10");
    let network = ip("2001:db8:42::99");
    let allowed = ip("192.0.2.11");
    let wire = packet(1, "example.com.", 1);
    assert_eq!(
        policy.action_for_view_with_client(QueryView::parse(&wire).unwrap(), Some(exact)),
        Action::Reject
    );
    let asked = query("example.com.");
    for client in [exact, network] {
        assert_eq!(serve(&mut policy, Some(client), &asked, None).rcode, 5);
    }
    assert_eq!(serve(&mut policy, Some(allowed), &asked, None).rcode, 0);
    assert_eq!(policy.deny_client_cidrs().len(), 2);
}

#[test]
fn denylist_reload_rejects_invalid_cidrs_without_publication() {
    let mut policy = start(Config::default()).expect("valid policy");
    let replacement = AdmissionConfig {
        deny_client_cidrs: vec!["not-a-cidr".into()],
        ..Default::default()
    };
    assert!(matches!(
        policy.reload_admission(&replacement),
        Err(PolicyError::InvalidAdmission { .. })
    ));
    assert_eq!(policy.admission_config().deny_client_cidrs, Vec::<String>::new());
}

#[test]
fn per_client_admission_is_bounded_and_releases_on_completion() {
    let mut config = Config::default();
    config.admission.max_inflight_per_client = 1;
    let mut policy = start(config).expect("valid admission config");
    let limits = policy.admission_config();
    let client = ip("192.0.2.10");
    let permit = policy
        .traffic
        .try_client_admission(&limits, Some(client), SECOND)
        .expect("first request admitted");
    assert!(policy.traffic.try_client_admission(&limits, Some(client), SECOND).is_none());
    policy.leave(permit);
    assert!(policy.traffic.try_client_admission(&limits, Some(client), SECOND).is_some());
    assert!(policy
        .traffic
        .try_client_admission(&limits, Some(ip("192.0.2.11")), SECOND)
        .is_some());
    assert!(policy.traffic.try_client_admission(&limits, None, SECOND).is_none());
}

#[test]
fn per_client_rate_limit_sheds_repeated_requests() {
    let mut config = Config::default();
    config.admission.max_queries_per_client_per_second = 2;
    let mut policy = start(config).expect("valid admission config");
    let limits = policy.admission_config();
    let client = Some(ip("192.0.2.10"));
    assert!(policy.traffic.allow_client_rate(&limits, client, SECOND));
    assert!(policy.traffic.allow_client_rate(&limits, client, SECOND));
    assert!(!policy.traffic.allow_client_rate(&limits, client, SECOND));
    assert!(policy.traffic.allow_client_rate(&limits, None, SECOND));
    assert!(policy.traffic.allow_client_rate(&limits, client, 2 * SECOND));
}

#[test]
fn global_rate_limit_sheds_anonymous_and_identified_requests() {
    let mut config = Config::default();
    config.admission.max_queries_per_second = 2;
    let mut policy = start(config).expect("valid admission config");
    let limits = policy.admission_config();
    assert!(policy.traffic.allow_global_rate(&limits, SECOND));
    assert!(policy.traffic.allow_global_rate(&limits, SECOND));
    assert!(!policy.traffic.allow_global_rate(&limits, SECOND));
}

#[test]
fn global_abuse_breaker_sheds_all_callers_after_threshold() {
    let mut config = Config::default();
    config.admission.ddos.max_global_abuse_violations = 2;
    config.admission.ddos.global_abuse_window_secs = 60;
    config.admission.ddos.global_abuse_cooldown_secs = 60;
    let mut policy = start(config).expect("valid global abuse config");
    let limits = policy.admission_config();
    assert!(policy.traffic.allow_global_abuse(&limits, SECOND));
    assert!(!policy.record_global_abuse(SECOND));
    assert!(policy.traffic.allow_global_abuse(&limits, SECOND));
    assert!(policy.record_global_abuse(SECOND));
    assert!(!policy.traffic.allow_global_abuse(&limits, SECOND));
    assert!(!policy.traffic.allow_global_abuse(&limits, SECOND));
    assert!(policy.abuse_status(SECOND).2);
    assert!(policy.traffic.allow_global_abuse(&limits, 61 * SECOND));
}

#[test]
fn repeated_rate_overflow_opens_bounded_client_abuse_breaker() {
    let mut config = Config::default();
    config.admission.max_queries_per_client_per_second = 1;
    config.admission.max_client_abuse_violations = 2;
    config.admission.client_abuse_cooldown_secs = 60;
    let mut policy = start(config).expect("valid abuse config");
    let limits = policy.admission_config();
    let now = 0;
    let client = Some(ip("192.0.2.44"));
    assert!(policy.traffic.allow_client_rate(&limits, client, now));
    assert!(!policy.traffic.allow_client_rate(&limits, client, now));
    assert!(!policy.record_client_abuse(client, now));
    assert!(policy.allow_client_abuse(client, now));
    assert!(!policy.traffic.allow_client_rate(&limits, client, now));
    assert!(policy.record_client_abuse(client, now));
    assert!(!policy.allow_client_abuse(client, now));
    assert!(policy.allow_client_abuse(None, now));
}

fn cooling() -> Policy {
    let mut config = Config::default();
    config.admission.client_abuse_cooldown_secs = 60;
    config.admission.network_abuse_cooldown_secs = 60;
    start(config).expect("valid abuse config")
}

#[test]
fn persisted_abuse_restores_active_client_and_network_until_expiry() {
    let mut policy = cooling();
    let client = ip("192.0.2.10");
    let same_network = ip("192.0.2.11");
    let other_network = ip("192.0.3.10");
    assert!(policy.restore_abuse_incident(client, 61_000, 1_000, SECOND));
    assert!(!policy.allow_client_abuse(Some(client), SECOND));
    assert!(!policy.allow_client_abuse(Some(same_network), SECOND));
    assert!(policy.allow_client_abuse(Some(other_network), SECOND));
    assert!(!policy.restore_abuse_incident(client, 1_000, 1_000, SECOND));
    assert!(!policy.allow_client_abuse(Some(client), 60 * SECOND));
    assert!(policy.allow_client_abuse(Some(client), 61 * SECOND));
}

#[test]
fn abuse_incident_revocation_reopens_exact_client_and_network() {
    let mut policy = cooling();
    let client = ip("192.0.2.10");
    assert!(policy.restore_abuse_incident(client, 61_000, 1_000, SECOND));
    assert!(!policy.allow_client_abuse(Some(client), SECOND));
    policy.revoke_abuse_incident(client);
    assert!(policy.allow_client_abuse(Some(client), SECOND));
    assert!(policy.allow_client_abuse(Some(ip("192.0.2.11")), SECOND));
}

#[test]
fn network_abuse_breaker_sheds_only_the_offending_network() {
    let mut config = Config::default();
    config.admission.max_client_abuse_violations = 100;
    config.admission.max_network_abuse_violations = 2;
    config.admission.network_abuse_cooldown_secs = 60;
    let mut policy = start(config).expect("valid network abuse config");
    let first = Some(ip("192.0.2.10"));
    let second = Some(ip("192.0.2.11"));
    let other_network = Some(ip("192.0.3.10"));
    let now = 0;
    assert!(!policy.record_client_abuse(first, now));
    assert!(policy.allow_client_abuse(second, now));
    assert!(policy.record_client_abuse(second, now));
    assert!(!policy.allow_client_abuse(first, now));
    assert!(!policy.allow_client_abuse(second, now));
    assert!(policy.allow_client_abuse(other_network, now));
    assert!(policy.allow_client_abuse(None, now));

    assert_eq!(
        abuse_network_key(ip("2001:db8:1:2::10"), 24, 64),
        abuse_network_key(ip("2001:db8:1:2::11"), 24, 64)
    );
    assert_ne!(
        abuse_network_key(ip("2001:db8:1:2::10"), 24, 64),
        abuse_network_key(ip("2001:db8:1:3::10"), 24, 64)
    );
}

#[test]
fn response_byte_budget_sheds_a_client_without_affecting_unidentified_callers() {
    let mut config = Config::default();
    config.admission.max_response_bytes_per_client_per_second = 10;
    config.admission.max_client_abuse_violations = 2;
    let mut policy = start(config).expect("valid policy");
    let client = Some(ip("192.0.2.10"));
    let now = 0;
    assert!(policy.allow_client_response_bytes(client, 6, now));
    assert!(!policy.allow_client_response_bytes(client, 5, now));
    assert!(!policy.record_client_abuse(client, now));
    assert!(policy.allow_client_abuse(client, now));
    assert!(!policy.allow_client_response_bytes(client, 5, now));
    assert!(policy.record_client_abuse(client, now));
    assert!(!policy.allow_client_abuse(client, now));
    assert!(policy.allow_client_response_bytes(None, 4096, now));
    assert!(policy.allow_client_abuse(None, now));
}

#[test]
fn network_response_budget_covers_clients_in_the_same_network() {
    let mut config = Config::default();
    config.admission.max_response_bytes_per_network_per_second = 10;
    let mut policy = start(config).expect("valid network response budget");
    let first = Some(ip("192.0.2.10"));
    let second = Some(ip("192.0.2.11"));
    let other_network = Some(ip("192.0.3.10"));
    assert!(policy.allow_network_response_bytes(first, 6, SECOND));
    assert!(!policy.allow_network_response_bytes(second, 5, SECOND));
    assert!(policy.allow_network_response_bytes(other_network, 5, SECOND));
    assert!(policy.allow_network_response_bytes(None, 4096, SECOND));
}

#[test]
fn global_response_budget_covers_unidentified_egress() {
    let mut config = Config::default();
    config.admission.max_response_bytes_per_second = 10;
    let mut policy = start(config).expect("valid policy");
    assert!(policy.allow_global_response_bytes(6, SECOND));
    assert!(!policy.allow_global_response_bytes(5, SECOND));
    assert!(policy.allow_global_response_bytes(4, SECOND));
    assert!(!policy.allow_global_response_bytes(3, SECOND));
}

#[test]
fn zero_response_byte_budget_is_rejected() {
    let mut config = Config::default();
    config.admission.max_response_bytes_per_client_per_second = 0;
    assert!(matches!(start(config), Err(PolicyError::InvalidAdmission { .. })));

    let mut config = Config::default();
    config.admission.max_response_bytes_per_network_per_second = 0;
    assert!(matches!(start(config), Err(PolicyError::InvalidAdmission { .. })));
}

fn honeypot_policy(change: fn(&mut AdmissionConfig), domain: &str) -> Policy {
    let mut config = Config::default();
    change(&mut config.admission);
    config.policy.rules = vec![rule(1, domain, Action::Honeypot)];
    start(config).expect("valid policy")
}

#[test]
fn admission_caps_answer_wire_size() {
    let policy = honeypot_policy(|limits| limits.max_response_bytes = 40, "honeypot.example");
    let answer = policy.evaluate(&query("honeypot.example.")).expect("wire answer");
    assert!(answer.records.is_empty());
}

#[test]
fn admission_caps_response_amplification_relative_to_query() {
    let policy = honeypot_policy(
        |limits| {
            limits.max_response_bytes = 4096;
            limits.max_response_amplification = 1;
        },
        "honeypot.example",
    );
    let answer = policy.evaluate(&query("honeypot.example.")).expect("wire answer");
    assert!(answer.records.is_empty());
}

#[test]
fn response_amplification_boundary_is_reported_from_wire_sizes() {
    let mut config = Config::default();
    config.admission.max_response_amplification = 2;
    let policy = start(config).expect("valid policy");
    assert!(!policy.response_amplification_capped(50, 99));
    assert!(policy.response_amplification_capped(50, 100));
    assert!(!policy.response_amplification_capped(0, 100));
}

#[test]
fn admission_caps_synthetic_answers() {
    let policy = honeypot_policy(|limits| limits.max_response_records = 1, "sink.example");
    let answer = policy.evaluate(&query("sink.example.")).expect("answer");
    assert!(answer.records.len() <= 1);
}

#[test]
fn honeypot_is_dns_only_and_has_no_payload_terminal() {
    let config = HoneypotConfig::default();
    for qtype in [1, 28, 5, 16, 255] {
        let answer = synthetic_honeypot_answer("sink.example.", qtype, &config);
        assert!(answer.records.len() <= 1, "qtype={qtype}");
        assert!(answer.records.iter().all(|record| {
            (record.rtype == 1 && record.rdata.len() == 4)
                || (record.rtype == 28 && record.rdata.len() == 16)
        }));
    }
}

// ---- the resolver --------------------------------------------------------------------

fn one_record(name: &str, rtype: u16, rdata: Vec<u8>) -> DnsAnswer {
    DnsAnswer::ok(vec![DnsAnswerRecord { name: name.into(), rtype, rclass: 1, ttl: 30, rdata }])
}

fn checked(policy: &Policy, asked: &DnsQuery, answer: &DnsAnswer) -> Result<(), &'static str> {
    validate_upstream_answer(
        asked,
        answer,
        policy.tables.admission.max_response_records,
        policy.config.security.reject_private_upstream_addresses,
    )
}

#[test]
fn upstream_rebinding_addresses_fail_closed_before_cache() {
    let policy = start(Config::default()).expect("valid policy");
    let asked = query("answer.example.");
    let private = one_record("answer.example.", 1, vec![10, 0, 0, 1]);
    assert_eq!(checked(&policy, &asked, &private), Err("upstream_rebinding"));
    let public = one_record("answer.example.", 1, vec![93, 184, 216, 34]);
    assert_eq!(checked(&policy, &asked, &public), Ok(()));
}

#[test]
fn upstream_answer_must_match_question_shape() {
    let policy = start(Config::default()).expect("valid policy");
    let asked = query("answer.example.");
    let unrelated = one_record("other.example.", 1, vec![93, 184, 216, 34]);
    assert_eq!(checked(&policy, &asked, &unrelated), Err("upstream_question_mismatch"));

    let malformed = one_record("answer.example.", 1, vec![127, 0, 0]);
    assert_eq!(checked(&policy, &asked, &malformed), Err("upstream_malformed"));

    let invalid_rcode = DnsAnswer { rcode: 16, ..DnsAnswer::ok(Vec::new()) };
    assert_eq!(checked(&policy, &asked, &invalid_rcode), Err("upstream_malformed"));

    let cname_rdata = encode_name("target.example.").expect("valid cname target");
    let valid_cname = one_record("answer.example.", 5, cname_rdata);
    assert_eq!(checked(&policy, &asked, &valid_cname), Ok(()));

    let malformed_cname = one_record("answer.example.", 5, vec![0xc0, 0x00]);
    assert_eq!(checked(&policy, &asked, &malformed_cname), Err("upstream_malformed"));

    let oversized_records = DnsAnswer {
        records: vec![
            DnsAnswerRecord {
                name: "answer.example.".into(),
                rtype: 1,
                rclass: 1,
                ttl: 30,
                rdata: vec![93, 184, 216, 34],
            };
            policy.config.admission.max_response_records + 1
        ],
        ..DnsAnswer::ok(Vec::new())
    };
    assert_eq!(checked(&policy, &asked, &oversized_records), Err("upstream_overflow"));
}

#[test]
fn upstream_failure_cause_preserves_typed_proxima_errors() {
    assert_eq!(upstream_failure_cause(UpstreamFailure::Timeout), "upstream_timeout");
    assert_eq!(upstream_failure_cause(UpstreamFailure::Wire), "upstream_wire_error");
    assert_eq!(upstream_failure_cause(UpstreamFailure::IdMismatch), "upstream_id_mismatch");
    assert_eq!(upstream_failure_cause(UpstreamFailure::IoTimedOut), "upstream_io_timeout");
    assert_eq!(upstream_failure_cause(UpstreamFailure::Config), "upstream_config_error");
}

// ---- logs and statistics -------------------------------------------------------------

#[test]
fn telemetry_observes_without_changing_the_policy_output() {
    let mut config = Config::default();
    config.policy.mode = Mode::Ignore;
    config.policy.domains = vec!["blocked.example".into()];
    let mut policy = start(config).expect("valid policy");
    let asked = DnsQuery {
        id: 7,
        recursion_desired: true,
        name: "blocked.example.".into(),
        qtype: 1,
        qclass: 1,
    };
    let outcome = policy.evaluate(&asked);
    policy.observe(Action::Drop);
    assert!(outcome.is_none());
    assert_eq!(policy.stats().total, 1);
    assert!(policy.evaluate(&asked).is_none());
}

#[test]
fn recording_sink_receives_only_dns_decision_metadata() {
    let mut policy = start(Config::default()).expect("valid policy");
    let record = policy.record_decision(Action::Nxdomain, 1, 1, 1_000);
    assert_eq!(
        record,
        DecisionRecord { action: Action::Nxdomain, qtype: Some(1), qclass: Some(1) }
    );
}

#[test]
fn action_only_recording_redaction_reaches_both_log_sinks() {
    let mut config = Config::default();
    config.privacy.query_log_enabled = true;
    config.privacy.query_recording_redaction = QueryRecordingRedaction::ActionOnly;
    let mut policy = start(config).expect("valid policy");
    let record = policy.record_decision(Action::Reject, 28, 1, 1_000);
    assert_eq!(record, DecisionRecord { action: Action::Reject, qtype: None, qclass: None });
    let log = policy.query_log.as_mut().expect("query log").snapshot(1_000);
    assert_eq!(log.len(), 1);
    assert_eq!(log[0].kind, LogKind::Decision(record));
    assert_eq!(
        policy.tables.query_recording_redaction,
        QueryRecordingRedaction::ActionOnly
    );
}

#[test]
fn borrowed_listener_handoff_records_selected_action_once() {
    let mut config = Config::default();
    config.privacy.query_log_enabled = true;
    config.privacy.query_log_max_entries = 4;
    let mut policy = start(config).expect("valid query log config");
    let asked = query("example.");
    policy.record_decision(Action::Nxdomain, asked.qtype, asked.qclass, 1_000);
    serve(&mut policy, None, &asked, Some(Action::Nxdomain));
    assert_eq!(policy.query_log.as_mut().expect("query log").snapshot(1_000).len(), 1);
}

#[test]
fn aggregate_decision_statistics_preserve_actions_and_reset_atomically() {
    let mut policy = start(Config::default()).expect("valid policy");
    for action in [
        Action::Pass,
        Action::Ignore,
        Action::Drop,
        Action::Reject,
        Action::Nxdomain,
        Action::Sink,
        Action::Honeypot,
        Action::Forward,
        Action::Observe,
    ] {
        policy.observe(action);
    }
    let stats = policy.stats();
    assert_eq!(stats.total, 9);
    assert_eq!(stats.counts, vec![1; 9]);
    assert_eq!(policy.clear_stats(), 9);
    assert_eq!(policy.stats().total, 0);
}

#[test]
fn proxima_jsonl_recording_path_persists_metadata_only() {
    let mut config = Config::default();
    config.admission.ddos.persist_incidents = true;
    config.privacy.query_recording_path = Some("decisions.jsonl".into());
    let mut policy = start(config).expect("valid policy");
    let record = policy.record_decision(Action::Nxdomain, 1, 1, 1_000);
    assert!(!format!("{record:?}").contains("secret.example"));
    assert_eq!(policy.record_abuse_incident("client_rate_overflow", 1_000), Some(31_000));
    let mut budget = RecordingBudget::new(0, 4_096).expect("bounded recording");
    assert!(budget.reserve(4_000).is_ok());
    assert!(budget.reserve(97).is_err());
    assert_eq!(budget.reserved_bytes, 4_000);
}

#[test]
fn abuse_incident_review_redacts_client_addresses() {
    let mut config = Config::default();
    config.privacy.query_log_enabled = true;
    config.privacy.query_log_max_entries = 4;
    config.privacy.query_log_retention_secs = 60;
    let mut policy = start(config).expect("valid query log config");
    assert_eq!(policy.record_abuse_incident("client_rate_overflow", 1_000), None);
    let (incidents, truncated) = policy.logged_incidents(1_000).expect("enabled log");
    assert!(!truncated);
    assert_eq!(incidents.len(), 1);
    assert!(incidents[0].active);
    assert_eq!(incidents[0].cause, "client_rate_overflow");
    assert!(!format!("{incidents:?}").contains("192.0.2.10"));
}

#[test]
fn durable_abuse_export_uses_proxima_jsonl_and_keeps_only_bounded_events() {
    let mut export = IncidentExport::new();
    let payload = "{\"client\":\"192.0.2.10\",\"cause\":\"client_rate_overflow\"}";
    export
        .accept(ExportEvent {
            ts_ms: 42,
            kind: "blackhole.ddos_incident".into(),
            payload: payload.into(),
        })
        .expect("export durable incident");
    export
        .accept(ExportEvent {
            ts_ms: 43,
            kind: "blackhole.dns_decision".into(),
            payload: "{}".into(),
        })
        .expect("skip another event");
    assert_eq!(export.events.len(), 1);
    assert_eq!(export.events[0].payload, payload);
    assert!(!export.truncated());
}

#[test]
fn bounded_query_log_retains_metadata_only_and_can_be_deleted() {
    let mut config = Config::default();
    config.privacy.query_log_enabled = true;
    config.privacy.query_log_max_entries = 1;
    config.privacy.query_log_retention_secs = 60;
    let mut policy = start(config).expect("valid query log config");
    policy.record_decision(Action::Reject, 1, 1, 1_000);
    policy.record_decision(Action::Nxdomain, 1, 1, 1_000);
    let (shown, truncated) = policy.logged_decisions(1_000).expect("enabled query log");
    assert_eq!(shown.len(), 1, "entry bound is enforced");
    assert_eq!(shown[0].action, Action::Nxdomain);
    assert!(!format!("{shown:?}").contains("secret.example"));
    assert!(!truncated);
    assert_eq!(policy.clear_query_log(), 1);
    assert!(policy.query_log.as_mut().expect("log").snapshot(1_000).is_empty());
}

#[test]
fn query_log_admin_projection_is_bounded() {
    let mut config = Config::default();
    config.privacy.query_log_enabled = true;
    config.privacy.query_log_max_entries = 2_000;
    let mut policy = start(config).expect("valid query log config");
    for _ in 0..(MAX_ADMIN_LOG_ENTRIES + 1) {
        policy.record_decision(Action::Reject, 1, 1, 1_000);
    }
    let (shown, truncated) = policy.logged_decisions(1_000).expect("enabled query log");
    assert_eq!(shown.len(), MAX_ADMIN_LOG_ENTRIES);
    assert!(truncated);
}

#[test]
fn query_log_configuration_is_bounded_and_disabled_by_default() {
    let mut policy = start(Config::default()).expect("default policy");
    assert!(policy.query_log.is_none());
    assert!(policy.logged_decisions(0).is_none());

    let mut config = Config::default();
    config.privacy.query_log_enabled = true;
    config.privacy.query_log_max_entries = 65_537;
    assert!(start(config).is_err());

    let mut config = Config::default();
    config.privacy.query_recording_path = Some(String::new());
    assert!(start(config).is_err());

    let mut config = Config::default();
    config.privacy.query_recording_path = Some("decisions.jsonl".into());
    config.privacy.query_recording_max_bytes = 0;
    assert!(start(config).is_err());

    let mut config = Config::default();
    config.privacy.query_recording_path = Some("decisions.jsonl".into());
    config.privacy.query_recording_max_files = 17;
    assert!(start(config).is_err());
}

#[test]
fn ddos_incident_persistence_requires_the_bounded_recording_sink() {
    let mut config = Config::default();
    config.admission.ddos.persist_incidents = true;
    assert!(matches!(
        start(config),
        Err(PolicyError::InvalidAdmission { reason }) if reason.contains("query_recording_path")
    ));
}
