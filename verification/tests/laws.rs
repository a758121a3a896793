use blackhole::admin::{AdminCommand, AdminReply};
use blackhole::admission::{admission_allows, cap_answer, check_startup_admission, validate_admission};
use blackhole::blocklist::{append_part, http_source_parts, is_remote, load_blocklists, size_fault, BlocklistSource,
    MAX_BLOCKLIST_BYTES};
use blackhole::buckets::{abuse_network_bytes, abuse_network_key, ip_key, AtomicWindowBucket,
    AtomicWindowBudget, MAX_CLIENT_RATE_ENTRIES};
use blackhole::bump::{reset, BumpAllocator, HEAP_BYTES};
use blackhole::cache::{CacheKey, DnsCache};
use blackhole::country::{config_change_fault, config_size_fault, source_fingerprint, source_sha256,
    CountrySource, FileFacts, LocalMap};
use blackhole::decisions::{action_index, action_label, mode_label};
use blackhole::dhcp::{encode_reply, Leases, MessageType, Pool, ReplyConfig, Request, Responder};
use blackhole::dns::{encode_name, encode_response, DnsAnswer, DnsAnswerRecord, DnsQuery, NameError};
use blackhole::edge::{probe, EdgeError};
use blackhole::fsm::{DecisionState, DropReason, Event, TransitionError};
use blackhole::identities::{client_identity_for, validate_client_identities};
use blackhole::linux_capture::{transaction_text, CaptureController, CaptureError, CaptureOwnership,
    CapturePlan, FileOwnershipStore, InstallState, NftCommandBackend, NftRulePlan, OwnershipStore,
    RuleBackend};
use blackhole::listener::{frame_reply, next_message, probe_tcp, probe_udp, wait_for_more, Absorbed,
    ProbeVerdict, TcpFrames, MAX_TCP_FRAME};
use blackhole::listing::{bundle_body, page, rules_body};
use blackhole::names::normalize;
use blackhole::net::{IpAddr, IpNetwork, SocketAddr};
use blackhole::policy::{PolicyError, QueryContext, ReferencePolicy};
use blackhole::profiles::compile_profiles;
use blackhole::query::{QueryParseError, QueryView};
use blackhole::recording::{export_limit, incident_expiry, recording_parent_fault, recording_targets,
    Deletion, DeletionPhase, ExportEvent, FileReport, IncidentExport, RecordingBudget};
use blackhole::regex_rules::{assemble_regex_rule, compile_regex_rules, decide_matched};
use blackhole::rewrites::compile_rewrites;
use blackhole::serving::{Next, UpstreamSlot};
use blackhole::status::{list_file_status, local_map_status, source_kind, FileState};
use blackhole::tables::{BucketTable, ClientAdmissionTable, KeyedWindowBudgetTable};
use blackhole::text::{joined, to_chars, to_decimal, to_text};
use blackhole::text_set::TextSet;
use blackhole::upstream::{outstanding_limit, resolver_config, upstream_failure_cause,
    valid_tls_server_name, validate_upstream, validate_upstream_response, ResponseQuestion,
    UpstreamFailure, UpstreamResponse};
use blackhole::{Action, AdmissionConfig, CacheConfig, ClientGroupConfig, ClientIdentityConfig, Config,
    CountryPolicyConfig, DhcpConfig, Policy, QueryRecordingRedaction, RegexRuleConfig, ReloadState, RewriteConfig, RuleConfig,
    ServiceProfileConfig, UpstreamConfig};

const SECOND: u64 = 1_000_000;

fn ip(text: &str) -> IpAddr {
    IpAddr::parse(text).expect("address")
}

fn no_map() -> CountrySource {
    CountrySource::Remote(Err("no map was read".into()))
}

fn start(config: Config) -> Policy {
    Policy::new(config, &[], &no_map()).expect("valid policy")
}

fn rule(id: u32, domain: &str, action: Action) -> RuleConfig {
    RuleConfig {
        enabled: true,
        id,
        domain: domain.into(),
        action,
        priority: 0,
        qtype: None,
        qtypes: Vec::new(),
        qclass: None,
        qclasses: Vec::new(),
        client: None,
        client_cidr: None,
        client_cidrs: Vec::new(),
        client_identity: None,
    }
}

fn regex(id: u32, pattern: &str, action: Action) -> RegexRuleConfig {
    RegexRuleConfig {
        enabled: true,
        id,
        pattern: pattern.into(),
        action,
        priority: 0,
        qtype: None,
        qtypes: Vec::new(),
        qclass: None,
        qclasses: Vec::new(),
        client: None,
        client_cidrs: Vec::new(),
    }
}

fn profile(id: u32, name: &str, domains: &[&str]) -> ServiceProfileConfig {
    ServiceProfileConfig {
        id,
        name: name.into(),
        enabled: true,
        domains: domains.iter().map(|domain| domain.to_string()).collect(),
        action: Action::Nxdomain,
        groups: Vec::new(),
        client_identity: None,
        priority: 0,
        client_cidrs: Vec::new(),
        qtype: None,
        qtypes: Vec::new(),
        qclass: None,
        qclasses: Vec::new(),
    }
}

fn identity(name: &str, clients: &[&str], cidrs: &[&str]) -> ClientIdentityConfig {
    ClientIdentityConfig {
        name: name.into(),
        enabled: true,
        clients: clients.iter().map(|text| ip(text)).collect(),
        client_cidrs: cidrs.iter().map(|text| text.to_string()).collect(),
    }
}

fn rewrite(name: &str, last: u32) -> RewriteConfig {
    RewriteConfig {
        name: name.into(),
        ipv4: Some(0xc000_0200 + last),
        ipv6: None,
        cname: None,
        ttl: 30,
    }
}

fn query(name: &str) -> DnsQuery {
    DnsQuery { id: 7, recursion_desired: true, name: name.into(), qtype: 1, qclass: 1 }
}

fn record(name: &str, ttl: u32, last: u8) -> DnsAnswerRecord {
    DnsAnswerRecord { name: name.into(), rtype: 1, rclass: 1, ttl, rdata: vec![93, 184, 216, last] }
}

fn list(path: &str, contents: &str) -> BlocklistSource {
    BlocklistSource { path: path.into(), contents: Ok(contents.as_bytes().to_vec()) }
}

fn upstream() -> UpstreamConfig {
    UpstreamConfig { resolver_ip: "192.0.2.53".into(), ..Default::default() }
}

// ---- text and names ------------------------------------------------------------------

#[test]
fn normal_form_is_reached_once() {
    assert_eq!(normalize("WWW.Example.COM.."), "www.example.com");
    assert_eq!(normalize("www.example.com"), "www.example.com");
}

#[test]
fn names_are_below_domains_at_label_boundaries_only() {
    let mut config = Config::default();
    config.policy.domains = vec!["example.com".into()];
    let policy = start(config);
    assert!(policy.matches("a.example.com."));
    assert!(policy.matches("EXAMPLE.com"));
    assert!(!policy.matches("badexample.com"));
}

#[test]
fn text_helpers_round_trip() {
    assert_eq!(to_text(&to_chars("h\u{e9}llo")), "h\u{e9}llo");
    assert_eq!(to_text(&to_decimal(u64::MAX)), "18446744073709551615");
    assert_eq!(to_text(&to_decimal(0)), "0");
    assert_eq!(joined("a", "b"), "ab");
}

#[test]
fn text_sets_are_ordered_and_hold_each_text_once() {
    let set = TextSet::from_list(&["b".into(), "a".into(), "b".into()]);
    assert_eq!(set.to_list(), vec!["a".to_string(), "b".to_string()]);
    assert_eq!(set.len(), 2);
    assert!(set.contains(&['a']));
    assert!(!set.contains(&['c']));
}

#[test]
fn networks_overlap_where_one_holds_the_other() {
    let wide = IpNetwork::parse("192.0.0.0/16").unwrap();
    let narrow = IpNetwork::parse("192.0.2.0/24").unwrap();
    let apart = IpNetwork::parse("198.51.100.0/24").unwrap();
    assert!(wide.overlaps(&narrow) && narrow.overlaps(&wide));
    assert!(!narrow.overlaps(&apart));
    assert!(narrow.contains(ip("192.0.2.255")) && !narrow.contains(ip("192.0.3.0")));
    assert!(IpNetwork::parse("192.0.2.0/33").is_none());
    assert_eq!(IpAddr::parse("2001:db8::1"), Some(IpAddr::V6(0x2001_0db8 << 96 | 1)));
    assert_eq!(SocketAddr::parse("[::1]:53").map(|socket| socket.port), Some(53));
    assert!(SocketAddr::parse("127.0.0.1").is_none());
    assert_eq!(SocketAddr::parse("[fe80::1%3]:53").map(|socket| socket.scope), Some(3));
    assert_ne!(SocketAddr::parse("[fe80::1%3]:53"), SocketAddr::parse("[fe80::1]:53"));
}

#[test]
fn a_listener_with_a_scope_is_another_endpoint() {
    let mut config = UpstreamConfig { resolver_ip: "fe80::1".into(), ..Default::default() };
    config.port = 53;
    assert!(validate_upstream(&config, "[fe80::1]:53").is_err());
    assert!(validate_upstream(&config, "[fe80::1%3]:53").is_ok());
}

// ---- the wire ------------------------------------------------------------------------

#[test]
fn names_have_their_wire_form_or_an_error() {
    assert_eq!(encode_name("a.bc.").unwrap(), vec![1, b'a', 2, b'b', b'c', 0]);
    assert_eq!(encode_name(&"a".repeat(64)), Err(NameError::LabelTooLong));
    let long = ["a".repeat(63), "b".repeat(63), "c".repeat(63), "d".repeat(63)].join(".");
    assert_eq!(encode_name(&long), Err(NameError::NameTooLong));
}

#[test]
fn responses_carry_the_id_and_question_of_the_query() {
    let asked = query("www.example.");
    let wire = encode_response(&asked, &DnsAnswer::ok(vec![record("www.example.", 30, 34)])).unwrap();
    assert_eq!(&wire[..12], &[0, 7, 0x81, 0x80, 0, 1, 0, 1, 0, 0, 0, 0]);
    assert_eq!(&wire[12..29], b"\x03www\x07example\0\0\x01\0\x01");
    assert_eq!(&wire[wire.len() - 4..], &[93, 184, 216, 34]);
}

#[test]
fn questions_are_read_back_as_they_were_written() {
    for name in ["", "a", "www.example", "Mixed-Case.example.org"] {
        let mut wire = vec![0x12, 0x34, 1, 0, 0, 1, 0, 0, 0, 0, 0, 0];
        wire.extend(encode_name(name).expect("name"));
        wire.extend([0x01, 0x02, 0x03, 0x04, 9, 9]);
        let read = QueryView::parse(&wire).expect("query").to_owned();
        assert_eq!(read.id, 0x1234);
        assert!(read.recursion_desired);
        assert_eq!(read.name, format!("{name}."));
        assert_eq!((read.qtype, read.qclass), (0x0102, 0x0304));
    }
}

#[test]
fn listeners_and_callers_decide_alike() {
    let mut config = Config::default();
    config.policy.rules = vec![rule(1, "blocked.example", Action::Reject)];
    let policy = start(config);
    for name in ["blocked.example", "open.example"] {
        let mut wire = vec![0, 1, 1, 0, 0, 1, 0, 0, 0, 0, 0, 0];
        wire.extend(encode_name(name).expect("name"));
        wire.extend([0, 1, 0, 1]);
        let view = QueryView::parse(&wire).expect("query");
        assert_eq!(
            policy.choose_action(None, false, &view.to_owned(), None),
            Some(policy.action_for_view(view))
        );
    }
}

#[test]
fn broken_queries_have_their_causes() {
    let header = [0u8, 1, 1, 0, 0, 1, 0, 0, 0, 0, 0, 0];
    let parse = |flags: u8, count: u8, tail: &[u8]| {
        let mut wire = header.to_vec();
        wire[2] = flags;
        wire[5] = count;
        wire.extend_from_slice(tail);
        QueryView::parse(&wire).map(|view| view.to_owned().name)
    };
    let root = [0, 0, 1, 0, 1];
    assert!(parse(1, 1, &root).is_ok());
    assert_eq!(parse(1, 1, &[3, b'a']), Err(QueryParseError::Short));
    assert_eq!(parse(0x81, 1, &root), Err(QueryParseError::InvalidFlags));
    assert_eq!(parse(1, 2, &root), Err(QueryParseError::QuestionCount));
    assert_eq!(parse(1, 1, &[0xc0, 0, 0, 1, 0, 1]), Err(QueryParseError::InvalidLabel));
    assert_eq!(QueryView::parse(&vec![0; 70_000]), Err(QueryParseError::Oversized));
    assert_eq!(probe(&[0; 11]), -1);
}

#[test]
fn streams_are_cut_alike_however_they_arrive() {
    let first = vec![1u8; 30];
    let second = vec![2u8; 40];
    let mut stream = frame_reply(&first).unwrap();
    stream.extend(frame_reply(&second).unwrap());

    let mut whole = TcpFrames::new();
    assert!(matches!(whole.absorb(&stream), Absorbed::Ready));
    assert_eq!(whole.take_frame(), first);
    assert!(whole.is_ready());
    assert_eq!(whole.take_frame(), second);
    assert!(!whole.is_ready());

    let mut split = TcpFrames::new();
    let mut cut = Vec::new();
    for byte in &stream {
        if matches!(split.absorb(&[*byte]), Absorbed::Ready) {
            cut.push(split.take_frame());
        }
    }
    assert_eq!(cut, vec![first, second]);
    assert!(matches!(split.absorb(&[]), Absorbed::Closed));
    assert!(matches!(split.absorb(&vec![0; MAX_TCP_FRAME + 3]), Absorbed::Overflow));
    assert!(frame_reply(&vec![0; 65_536]).is_none());
}

#[test]
fn transports_recognise_queries_by_their_prefix() {
    let wire = [0u8, 1, 1, 0, 0, 1, 0, 0, 0, 0, 0, 0, 0, 0, 1, 0, 1];
    assert_eq!(probe_udp(&wire[..4]), ProbeVerdict::NeedMore { at_least: 12 });
    assert!(matches!(probe_udp(&wire), ProbeVerdict::Match { .. }));
    let framed = frame_reply(&wire).unwrap();
    assert!(matches!(probe_tcp(&framed), ProbeVerdict::Match { .. }));
    assert_eq!(probe_tcp(b"GET / HTTP/1.1"), ProbeVerdict::No);
}

// ---- states of a message -------------------------------------------------------------

#[test]
fn dropped_messages_are_never_answered() {
    let dropped = DecisionState::Dropped { reason: DropReason::Malformed };
    assert!(dropped.transition(Event::Respond(b"reply")).is_err());
    let dropped = DecisionState::Dropped { reason: DropReason::Malformed };
    assert!(dropped.transition(Event::PeerClosed).is_ok());
    assert_eq!(
        next_message(Some(DecisionState::received(b"one")), b"two"),
        Err(TransitionError::Illegal { state: "Received", event: "NextMessage" })
    );
    assert_eq!(wait_for_more(b"par"), Ok(DecisionState::Parsing { packet: b"par" }));
    assert_eq!(
        TransitionError::Illegal { state: "Closed", event: "Sent" }.message(),
        "illegal FSM transition: Closed + Sent"
    );
}

// ---- decisions -----------------------------------------------------------------------

#[test]
fn the_strongest_rule_decides() {
    let mut high = rule(2, "*.example.com", Action::Reject);
    high.priority = 5;
    let policy = ReferencePolicy::new(&[rule(1, "www.example.com", Action::Drop), high]).unwrap();
    let context = QueryContext {
        name: "www.example.com",
        qtype: 1,
        qclass: 1,
        client: None,
        client_identity: None,
    };
    let decision = policy.decide(context).expect("decision");
    assert_eq!((decision.rule_id, decision.action), (2, Action::Reject));
    assert!(matches!(
        ReferencePolicy::new(&[rule(1, "a", Action::Drop), rule(1, "b", Action::Drop)]),
        Err(PolicyError::DuplicateRule { id: 1 })
    ));
}

#[test]
fn spelling_does_not_matter() {
    let mut config = Config::default();
    config.policy.rules = vec![rule(1, "Blocked.Example.", Action::Nxdomain)];
    let policy = start(config);
    for name in ["blocked.example", "BLOCKED.EXAMPLE.", "Blocked.example."] {
        assert_eq!(policy.evaluate(&query(name)).unwrap().rcode, 3);
    }
}

#[test]
fn switched_off_filtering_blocks_nothing_and_denies_still() {
    let mut config = Config::default();
    config.policy.rules = vec![rule(1, "blocked.example", Action::Nxdomain)];
    config.admission.deny_client_cidrs = vec!["192.0.2.0/24".into()];
    let mut policy = start(config);
    assert_eq!(policy.set_filtering_enabled(false), ReloadState::Published);
    assert_eq!(policy.set_filtering_enabled(false), ReloadState::Unchanged);
    assert_eq!(policy.evaluate(&query("blocked.example.")).unwrap().rcode, 0);
    let entry = policy.enter(true, Some(ip("192.0.2.9")), &query("blocked.example."), SECOND);
    assert_eq!(entry.turned_away.map(|answer| answer.rcode), Some(5));
    policy.set_filtering_enabled(true);
    assert_eq!(policy.evaluate(&query("blocked.example.")).unwrap().rcode, 3);
}

#[test]
fn denied_clients_spend_no_budget() {
    let mut config = Config::default();
    config.admission.deny_client_cidrs = vec!["192.0.2.0/24".into()];
    config.admission.max_queries_per_second = 1;
    let mut policy = start(config);
    let asked = query("example.com.");
    for _ in 0..4 {
        let entry = policy.enter(true, Some(ip("192.0.2.9")), &asked, SECOND);
        assert!(entry.turned_away.is_some() && entry.permit.is_none());
    }
    let entry = policy.enter(true, Some(ip("198.51.100.9")), &asked, SECOND);
    assert!(entry.turned_away.is_none());
}

#[test]
fn turned_away_requests_hold_no_answer() {
    let mut policy = start(Config::default());
    let entry = policy.enter(false, None, &query("example.com."), SECOND);
    let answer = entry.turned_away.expect("no slot was free");
    assert!(answer.records.is_empty());
    assert!(answer.rcode == 2 || answer.rcode == 5);
}

#[test]
fn blocked_queries_are_not_forwarded() {
    let mut config = Config::default();
    config.upstream = Some(upstream());
    let mut policy = start(config);
    for action in [Action::Reject, Action::Nxdomain, Action::Sink, Action::Drop, Action::Honeypot] {
        assert!(matches!(
            policy.answer_step(&query("blocked.example."), Some(action)),
            Next::Reply { .. }
        ));
    }
    assert!(matches!(
        policy.answer_step(&query("open.example."), Some(Action::Forward)),
        Next::Acquire
    ));
}

fn response(name: &str, last: u8) -> UpstreamResponse {
    UpstreamResponse {
        question: Some(ResponseQuestion { name: name.into(), qtype: 1, qclass: 1 }),
        truncated: false,
        answer: DnsAnswer::ok(vec![record(name, 30, last)]),
    }
}

#[test]
fn disbelieved_responses_are_not_kept() {
    let mut config = Config::default();
    config.upstream = Some(upstream());
    let mut policy = start(config);
    let asked = query("www.example.");
    let turn = policy.slot_asked(&asked, Action::Forward, UpstreamSlot::Granted, 1_000);
    assert!(matches!(turn.next, Next::AskBreaker));
    let turn = policy.responded(&asked, Action::Forward, &response("other.example.", 1), 1_000);
    assert_eq!(turn.cause, Some("upstream_question_mismatch"));
    assert_eq!(policy.policy_status().cache_entries, 0);

    let turn = policy.responded(&asked, Action::Forward, &response("www.example.", 1), 1_000);
    assert_eq!(turn.cause, None);
    assert_eq!(turn.kept_secs, Some((true, 30)));
    assert_eq!(policy.policy_status().cache_entries, 1);
    let turn = policy.exchange_failed(&asked, Action::Forward, UpstreamFailure::Timeout, 32_000);
    assert_eq!((turn.cause, turn.cache), (None, Some("stale_hit")));
    match turn.next {
        Next::Reply { answer, .. } => assert_eq!(answer.records.len(), 1),
        _ => panic!("expected the stale answer"),
    }
    let turn = policy.exchange_failed(&asked, Action::Forward, UpstreamFailure::Timeout, 90_000);
    assert_eq!((turn.cause, turn.cache), (Some("upstream_timeout"), None));
    assert!(matches!(turn.next, Next::ExchangeFailed));
}

#[test]
fn responses_are_believed_for_their_own_question_only() {
    let asked = query("www.example.");
    let check = |response: &UpstreamResponse| validate_upstream_response(&asked, response, 4, true);
    assert_eq!(check(&response("www.example.", 1)), Ok(()));
    assert_eq!(check(&response("other.example.", 1)), Err("upstream_question_mismatch"));
    let mut cut = response("www.example.", 1);
    cut.truncated = true;
    assert_eq!(check(&cut), Err("upstream_truncated"));
    assert_eq!(upstream_failure_cause(UpstreamFailure::Io), "upstream_io_error");
    assert_eq!(upstream_failure_cause(UpstreamFailure::Other), "upstream_error");
    assert_eq!(outstanding_limit(7), 7);
    assert!(valid_tls_server_name("dns.example") && !valid_tls_server_name(""));
}

// ---- rules with expressions ----------------------------------------------------------

#[test]
fn expressions_match_as_they_are_written() {
    let rules = compile_regex_rules(
        &[regex(1, "^ads[0-9]+\\.", Action::Drop), regex(2, "track", Action::Reject)],
        &[],
    )
    .expect("rules");
    let decide = |name: &str| rules.regex_decision(name, 1, 1, None).map(|found| found.rule_id);
    assert_eq!(decide("ads12.example"), Some(1));
    assert_eq!(decide("ads.example"), None);
    assert_eq!(decide("my-tracker.example"), Some(2));
    assert!(matches!(
        compile_regex_rules(&[regex(9, "a", Action::Drop)], &[9]),
        Err(PolicyError::DuplicateRule { id: 9 })
    ));
    match compile_regex_rules(&[regex(5, "(", Action::Drop)], &[]) {
        Err(PolicyError::InvalidRegex { id: 5, reason }) => assert!(reason.contains("unclosed group")),
        _ => panic!("expected an error"),
    }
}

#[test]
fn a_matched_rule_with_more_priority_decides() {
    let mut low = regex(1, "a", Action::Drop);
    low.qtypes = vec![28];
    let mut high = regex(2, "b", Action::Reject);
    high.priority = 3;
    let rules = vec![
        assemble_regex_rule(&low, None).unwrap(),
        assemble_regex_rule(&high, None).unwrap(),
    ];
    let decide = |matched: [bool; 2], qtype: u16| {
        decide_matched(&rules, &matched, qtype, 1, None).map(|found| found.rule_id)
    };
    assert_eq!(decide([true, true], 28), Some(2));
    assert_eq!(decide([true, false], 28), Some(1));
    assert_eq!(decide([true, false], 1), None);
    assert_eq!(decide([false, false], 28), None);
    assert_eq!(
        assemble_regex_rule(&low, Some("no good".into())).err(),
        Some(PolicyError::InvalidRegex { id: 1, reason: "no good".into() })
    );
}

// ---- tables that operators edit ------------------------------------------------------

#[test]
fn refused_changes_change_nothing() {
    let mut policy = start(Config::default());
    policy.reload_rules(&[rule(1, "a.example", Action::Drop)]).unwrap();
    let generation = policy.policy_status().policy_generation;
    assert!(policy.append_rules(&[rule(1, "b.example", Action::Drop)]).is_err());
    assert!(policy.upsert_rules(&[]).is_err());
    assert!(policy.remove_rules(&[9]).is_err());
    assert_eq!(policy.policy_status().policy_generation, generation);
    assert_eq!(policy.tables.explicit_rules.len(), 1);
}

#[test]
fn publications_are_counted_and_empty_the_cache() {
    let mut policy = start(Config::default());
    let key = CacheKey::from_query(&query("www.example."));
    policy.tables.cache.insert(key, DnsAnswer::ok(vec![record("www.example.", 30, 1)]), 1_000);
    assert_eq!(policy.policy_status().cache_entries, 1);
    let generation = policy.policy_status().policy_generation;
    let rules = [rule(1, "a.example", Action::Drop)];
    assert_eq!(policy.reload_rules(&rules), Ok(ReloadState::Published));
    assert_eq!(policy.policy_status().policy_generation, generation + 1);
    assert_eq!(policy.policy_status().cache_entries, 0);
    assert_eq!(policy.reload_rules(&rules), Ok(ReloadState::Unchanged));
    assert_eq!(policy.policy_status().policy_generation, generation + 1);
}

#[test]
fn upserts_edit_in_place_and_append() {
    let mut policy = start(Config::default());
    policy
        .reload_rules(&[rule(1, "a.example", Action::Drop), rule(2, "b.example", Action::Drop)])
        .unwrap();
    policy
        .upsert_rules(&[rule(1, "c.example", Action::Reject), rule(3, "d.example", Action::Sink)])
        .unwrap();
    let listed: Vec<(u32, &str)> = policy
        .tables
        .explicit_rules
        .iter()
        .map(|rule| (rule.id, rule.domain.as_str()))
        .collect();
    assert_eq!(listed, [(1, "c.example"), (2, "b.example"), (3, "d.example")]);
    policy.remove_rules(&[2]).unwrap();
    assert_eq!(policy.tables.explicit_rules.len(), 2);
}

#[test]
fn rewrites_groups_and_identities_are_edited_by_name() {
    let mut policy = start(Config::default());
    policy.upsert_rewrites(&[rewrite("a.example", 1), rewrite("b.example", 2)]).unwrap();
    policy.upsert_rewrites(&[rewrite("A.example.", 9)]).unwrap();
    assert_eq!(policy.tables.rewrite_configs.len(), 2);
    let answer = policy.evaluate(&query("a.example.")).unwrap();
    assert_eq!(answer.records[0].rdata, vec![192, 0, 2, 9]);
    policy.upsert_rewrites(&[rewrite("*.home.arpa", 3)]).unwrap();
    assert_eq!(policy.policy_status().rewrites, 2);
    policy.remove_rewrites(&["a.example".into()]).unwrap();
    assert_eq!(policy.tables.rewrite_configs.len(), 2);

    policy.upsert_client_identities(&[identity("laptop", &["192.0.2.7"], &[])]).unwrap();
    assert_eq!(
        client_identity_for(&policy.tables.client_identities, Some(ip("192.0.2.7"))).as_deref(),
        Some("laptop")
    );
    policy.remove_client_identities(&["laptop".into()]).unwrap();
    assert!(policy.tables.client_identities.is_empty());
    assert!(policy.remove_client_identities(&["laptop".into()]).is_err());
}

#[test]
fn accepted_identities_share_no_client() {
    let apart = [identity("a", &["192.0.2.7"], &[]), identity("b", &[], &["198.51.100.0/24"])];
    assert!(validate_client_identities(&apart).is_ok());
    let shared = [identity("a", &["198.51.100.7"], &[]), identity("b", &[], &["198.51.100.0/24"])];
    assert!(matches!(
        validate_client_identities(&shared),
        Err(PolicyError::InvalidClientIdentityMap { .. })
    ));
    let swapped = [identity("b", &[], &["198.51.100.0/24"]), identity("a", &["198.51.100.7"], &[])];
    assert!(matches!(
        validate_client_identities(&swapped),
        Err(PolicyError::InvalidClientIdentityMap { .. })
    ));
    let own = [identity("a", &["198.51.100.7"], &["198.51.100.0/24"])];
    assert!(validate_client_identities(&own).is_ok());
    let mut off = identity("a", &["192.0.2.7"], &[]);
    off.enabled = false;
    assert_eq!(client_identity_for(&[off], Some(ip("192.0.2.7"))), None);
}

#[test]
fn profile_rules_are_numbered_upwards() {
    let mut home = profile(100, "home", &["a.example", "b.example"]);
    home.groups = vec!["g".into()];
    let group = ClientGroupConfig {
        name: "g".into(),
        enabled: true,
        client_addresses: vec![ip("192.0.2.7"), ip("192.0.2.8")],
        client_cidrs: Vec::new(),
    };
    let rules = compile_profiles(&[home], &[group]).expect("rules");
    let ids: Vec<u32> = rules.iter().map(|rule| rule.id).collect();
    assert_eq!(ids, [100, 101, 102, 103]);
}

#[test]
fn bundles_shown_or_applied_again_change_nothing() {
    let mut config = Config::default();
    config.policy.rules = vec![rule(1, "a.example", Action::Drop)];
    config.policy.regex_rules = vec![regex(2, "^ads", Action::Drop)];
    config.policy.profiles = vec![profile(10, "p", &["p.example"])];
    config.policy.rewrites = vec![rewrite("r.example", 1)];
    config.policy.domains = vec!["Legacy.Example.".into()];
    let mut policy = start(config);
    let generation = policy.policy_status().policy_generation;
    let shown = policy.policy_bundle();
    assert_eq!(shown.domains, ["legacy.example"]);
    let again = policy.reload_policy_bundle_with_legacy_and_admission(
        &shown.rules,
        &shown.regex_rules,
        &shown.profiles,
        &shown.client_groups,
        &shown.client_identities,
        &shown.rewrites,
        &shown.country_policy,
        None,
        Some(shown.mode),
        Some(&shown.domains),
        Some(shown.default_action),
        Some(shown.filtering_enabled),
        Some(&shown.disabled_blocklists),
        Some(&shown.admission),
        &[],
        &no_map(),
    );
    assert_eq!(again, Ok(ReloadState::Unchanged));
    assert_eq!(policy.policy_status().policy_generation, generation);

    let mut single = regex(2, "^ads", Action::Drop);
    single.qtype = Some(1);
    assert_eq!(policy.reload_regex_rules(&[single]), Ok(ReloadState::Published));
    let mut with_list = regex(2, "^ads", Action::Drop);
    with_list.qtypes = vec![1];
    assert_eq!(policy.reload_regex_rules(&[with_list]), Ok(ReloadState::Published));
    let mut with_list = regex(2, "^ads", Action::Drop);
    with_list.qtypes = vec![1];
    assert_eq!(policy.reload_regex_rules(&[with_list]), Ok(ReloadState::Unchanged));
}

#[test]
fn sources_switched_off_and_on_again_are_restored() {
    let files = [list("a.txt", "a.example\n"), list("b.txt", "b.example\n")];
    let mut config = Config::default();
    config.policy.blocklists = vec!["a.txt".into(), "b.txt".into()];
    let mut policy = Policy::new(config, &files, &no_map()).expect("valid policy");
    assert_eq!(policy.policy_status().blocklist_rules, 4);
    policy.disable_blocklist_sources(&files, &["a.txt".into()]).unwrap();
    assert_eq!(policy.policy_status().blocklist_rules, 2);
    assert_eq!(policy.evaluate(&query("a.example.")).unwrap().rcode, 0);
    policy.enable_blocklist_sources(&files, &["a.txt".into()]).unwrap();
    assert_eq!(policy.policy_status().blocklist_rules, 4);
    assert_eq!(policy.policy_status().disabled_blocklist_sources, 0);
    let status = policy.source_status(list("a.txt", "a.example\n"));
    assert_eq!((status.load_status, status.rule_count), ("ok", 2));
    assert_eq!(status.fingerprint, Some(source_fingerprint(b"a.example\n")));
    assert!(policy.remove_blocklist_sources(&files, &["c.txt".into()]).is_err());
}

#[test]
fn groups_profiles_and_rules_are_edited_by_key() {
    let mut policy = start(Config::default());
    let group = |name: &str, address: &str| ClientGroupConfig {
        name: name.into(),
        enabled: true,
        client_addresses: vec![ip(address)],
        client_cidrs: Vec::new(),
    };
    policy.upsert_client_groups(&[group("g", "192.0.2.1"), group("h", "192.0.2.2")]).unwrap();
    let mut home = profile(10, "home", &["a.example"]);
    home.groups = vec!["g".into()];
    policy.upsert_profiles(&[home]).unwrap();
    assert_eq!(policy.policy_status().domain_rules, 1);
    assert!(policy.remove_client_groups(&["g".into()]).is_err());
    policy.remove_client_groups(&["h".into()]).unwrap();
    let mut off = profile(11, "off", &["b.example"]);
    off.enabled = false;
    off.groups = vec![" G ".into()];
    policy.remove_profiles(&[10]).unwrap();
    policy.upsert_profiles(&[off]).unwrap();
    assert!(matches!(
        policy.remove_client_groups(&["g".into()]),
        Err(PolicyError::InvalidProfile { .. })
    ));
    assert_eq!((policy.tables.client_groups.len(), policy.tables.profiles.len()), (1, 1));
    policy.remove_profiles(&[11]).unwrap();
    policy.remove_client_groups(&["g".into()]).unwrap();
    assert!(policy.tables.client_groups.is_empty());
    assert_eq!(policy.policy_status().domain_rules, 0);
    assert!(policy.remove_profiles(&[10]).is_err());

    policy.upsert_regex_rules(&[regex(5, "^a", Action::Drop), regex(6, "^b", Action::Drop)]).unwrap();
    policy.remove_regex_rules(&[5]).unwrap();
    assert_eq!(policy.policy_status().regex_rules, 1);
    assert!(policy.remove_regex_rules(&[5]).is_err());
    assert!(policy.validate_regex_rules(&[regex(7, "(", Action::Drop)]).is_err());
    assert!(policy.validate_rules(&[rule(6, "a.example", Action::Drop)]).is_err());
    assert!(policy.validate_rules(&[rule(7, "a.example", Action::Drop)]).is_ok());

    assert_eq!(policy.reload_rewrites(&[rewrite("r.example", 1)]), Ok(ReloadState::Published));
    assert_eq!(policy.reload_rewrites(&[rewrite("r.example", 1)]), Ok(ReloadState::Unchanged));
}

#[test]
fn edits_leave_the_other_expressions_alone() {
    let mut off = regex(1, "^off", Action::Drop);
    off.enabled = false;
    let mut single = regex(2, "^single", Action::Drop);
    single.qtype = Some(28);
    let mut policy = start(Config::default());
    policy.reload_regex_rules(&[off, single]).unwrap();
    policy.upsert_regex_rules(&[regex(3, "^new", Action::Reject)]).unwrap();
    let rules = &policy.tables.regex_rules.rules;
    assert_eq!(rules.len(), 3);
    assert!(!rules[0].enabled);
    assert_eq!((rules[1].qtype, rules[1].qtypes.clone()), (Some(28), vec![28]));
    assert_eq!(policy.evaluate(&query("off.example.")).unwrap().rcode, 0);
}

#[test]
fn bundles_without_sources_retain_the_lists() {
    let files = [list("a.txt", "a.example\n")];
    let mut config = Config::default();
    config.policy.blocklists = vec!["a.txt".into()];
    let mut policy = Policy::new(config, &files, &no_map()).expect("valid policy");
    let replaced = policy.reload_policy_bundle(
        &[rule(1, "b.example", Action::Drop)],
        &[],
        &[],
        &[],
        &[],
        &CountryPolicyConfig::default(),
        None,
        &[list("a.txt", "c.example\n")],
        &no_map(),
    );
    assert_eq!(replaced, Ok(ReloadState::Published));
    assert_eq!(policy.evaluate(&query("a.example.")).unwrap().rcode, 3);
    assert_eq!(policy.evaluate(&query("c.example.")).unwrap().rcode, 0);
    let reread = policy.reload_policy_bundle_with_legacy(
        &[rule(1, "b.example", Action::Drop)],
        &[],
        &[],
        &[],
        &[],
        &[],
        &CountryPolicyConfig::default(),
        None,
        None,
        None,
        None,
        None,
        None,
        &[list("a.txt", "c.example\n")],
        &no_map(),
    );
    assert_eq!(reread, Ok(ReloadState::Published));
    assert_eq!(policy.evaluate(&query("a.example.")).unwrap().rcode, 0);
    assert_eq!(policy.evaluate(&query("c.example.")).unwrap().rcode, 3);
}

#[test]
fn checked_bundles_are_not_published() {
    let policy = start(Config::default());
    let check = |rules: &[RuleConfig], regex_rules: &[RegexRuleConfig]| {
        policy.validate_policy_bundle_with_legacy_and_admission(
            rules,
            regex_rules,
            &[],
            &[],
            &[],
            &[],
            &CountryPolicyConfig::default(),
            None,
            None,
            None,
            None,
            None,
            None,
            None,
            &[],
            &no_map(),
        )
    };
    assert_eq!(check(&[rule(1, "a.example", Action::Drop)], &[regex(2, "b", Action::Drop)]), Ok(()));
    assert_eq!(
        check(&[rule(1, "a.example", Action::Drop)], &[regex(1, "b", Action::Drop)]),
        Err(PolicyError::DuplicateRule { id: 1 })
    );
    assert!(policy.tables.explicit_rules.is_empty());
}

#[test]
fn sources_and_denials_are_replaced() {
    let files = [list("a.txt", "a.example\n"), list("b.txt", "b.example\n")];
    let mut policy = start(Config::default());
    policy.add_blocklist_sources(&files, &["a.txt".into()]).unwrap();
    assert!(policy.add_blocklist_sources(&files, &["c.txt".into()]).is_err());
    policy.replace_blocklist_sources(&files, &["b.txt".into()]).unwrap();
    assert_eq!(policy.tables.blocklist_paths, ["b.txt"]);
    assert_eq!(
        policy.replace_deny_client_cidrs(&["192.0.2.0/24".into()]),
        Ok(ReloadState::Published)
    );
    assert_eq!(policy.deny_client_cidrs(), ["192.0.2.0/24"]);
    assert_eq!(
        policy.set_query_recording_redaction(QueryRecordingRedaction::ActionOnly),
        ReloadState::Published
    );
    assert_eq!(
        policy.set_query_recording_redaction(QueryRecordingRedaction::ActionOnly),
        ReloadState::Unchanged
    );
}

#[test]
fn an_open_breaker_leaves_what_is_stale() {
    let mut config = Config::default();
    config.upstream = Some(upstream());
    let mut policy = start(config);
    let asked = query("www.example.");
    let turn = policy.breaker_open(&asked, Action::Forward, 1_000);
    assert_eq!(turn.cause, Some("upstream_circuit_open"));
    assert!(matches!(turn.next, Next::BreakerOpen));
    policy.responded(&asked, Action::Forward, &response("www.example.", 1), 1_000);
    let turn = policy.breaker_open(&asked, Action::Forward, 32_000);
    assert_eq!(turn.cache, Some("stale_hit"));
    let turn = policy.slot_asked(&asked, Action::Forward, UpstreamSlot::Granted, 2_000);
    assert_eq!(turn.cache, Some("fresh_hit"));
    let turn = policy.slot_asked(&asked, Action::Forward, UpstreamSlot::Busy, 2_000);
    assert_eq!(turn.cause, Some("upstream_overflow"));
    let turn = policy.slot_asked(&asked, Action::Forward, UpstreamSlot::Unconfigured, 2_000);
    assert_eq!(turn.cause, Some("upstream_unconfigured"));
}

#[test]
fn resolvers_are_configured_from_the_upstream() {
    let config = resolver_config(&upstream());
    assert_eq!(config.resolver_ip, "192.0.2.53");
    assert_eq!(mode_label(blackhole::Mode::Honeypot), "honeypot");
    assert!(is_remote("http://lists.example/a") && !is_remote("lists/a.txt"));
}

#[test]
fn removing_unknown_denials_changes_nothing() {
    let mut policy = start(Config::default());
    assert_eq!(policy.add_deny_client_cidrs(&["192.0.2.0/24".into()]), Ok(ReloadState::Published));
    assert_eq!(policy.add_deny_client_cidrs(&["192.0.2.0/24".into()]), Ok(ReloadState::Unchanged));
    assert_eq!(
        policy.remove_deny_client_cidrs(&["198.51.100.0/24".into()]),
        Ok(ReloadState::Unchanged)
    );
    assert_eq!(policy.deny_client_cidrs(), ["192.0.2.0/24"]);
    assert_eq!(
        policy.remove_deny_client_cidrs(&["192.0.2.0/24".into()]),
        Ok(ReloadState::Published)
    );
    assert!(policy.deny_client_cidrs().is_empty());
}

// ---- filter lists and the country map ------------------------------------------------

#[test]
fn the_order_of_filters_does_not_matter() {
    let rules = |text: &str| {
        load_blocklists(&[list("a.txt", text)])
            .expect("rules")
            .into_iter()
            .map(|rule| (rule.domain, rule.action))
            .collect::<Vec<_>>()
    };
    let forward = rules("||ads.example^\n@@||good.ads.example^\n");
    assert_eq!(forward.len(), 4);
    assert_eq!(forward, rules("@@||good.ads.example^\n||ads.example^\n"));
    assert!(rules("||ads.example^\n||ads.example^$badfilter\n").is_empty());
}

#[test]
fn lines_may_be_reordered_and_split() {
    let rules = |sources: &[BlocklistSource]| load_blocklists(sources).expect("rules");
    let together = rules(&[list(
        "a.txt",
        "||b.example^$denyallow=x.b.example\n||a.example^$important\n@@||c.example^\n||b.example^$denyallow=y.b.example\n",
    )]);
    let apart = rules(&[
        list("a.txt", "||b.example^$denyallow=y.b.example\n@@||c.example^\n"),
        list("b.txt", ""),
        list("c.txt", "||a.example^$important\n||b.example^$denyallow=x.b.example\n||a.example^$important\n"),
    ]);
    assert_eq!(together, apart);
    assert_eq!(together.len(), 10);
}

#[test]
fn the_rules_of_lists_are_numbered_downwards() {
    let rules = load_blocklists(&[
        list("a.txt", "||b.example^$denyallow=x.b.example|y.b.example\n||a.example^\n"),
        list("b.txt", "||c.example^$important\n@@||d.example^\n||a.example^\n"),
    ])
    .expect("rules");
    assert_eq!(rules.len(), 12);
    for (index, rule) in rules.iter().enumerate() {
        assert_eq!(rule.id, u32::MAX - index as u32);
    }
}

#[test]
fn lists_that_are_no_text_are_refused_with_the_reason() {
    let source = BlocklistSource { path: "a.txt".into(), contents: Ok(vec![0x61, 0xff]) };
    match load_blocklists(&[source]) {
        Err(PolicyError::InvalidBlocklist { path, reason }) => {
            assert_eq!(path, "a.txt");
            assert!(reason.contains("invalid utf-8"));
        }
        _ => panic!("expected an error"),
    }
}

#[test]
fn sources_are_read_up_to_their_bound() {
    assert_eq!(size_fault(MAX_BLOCKLIST_BYTES), None);
    assert_eq!(
        size_fault(MAX_BLOCKLIST_BYTES + 1).as_deref(),
        Some("file exceeds 16777216 bytes")
    );
    let mut contents = Vec::new();
    assert_eq!(append_part(&mut contents, b"abc", 4), Ok(()));
    assert_eq!(
        append_part(&mut contents, b"de", 4),
        Err("remote source exceeds 4 bytes".to_string())
    );
    assert_eq!(contents, b"abc");
    assert_eq!(
        http_source_parts("https://lists.example/a.txt"),
        Some(("https://lists.example".into(), "/a.txt".into()))
    );
    assert_eq!(http_source_parts("ftp://lists.example/a.txt"), None);
}

#[test]
fn digests_are_those_of_sha256() {
    assert_eq!(
        source_sha256(b"abc"),
        "ba7816bf8f01cfea414140de5dae2223b00361a396177a9cb410ff61f20015ad"
    );
    assert_eq!(
        source_sha256(b""),
        "e3b0c44298fc1c149afbf4c8996fb92427ae41e4649b934ca495991b7852b855"
    );
}

fn map_config(pin: Option<String>) -> Config {
    Config {
        country_policy: CountryPolicyConfig {
            map_path: Some("map.txt".into()),
            expected_sha256: pin,
            max_age_secs: None,
            reload_interval_secs: 0,
            deny: vec!["US".into()],
            observe: vec!["CA".into()],
            deny_regions: Vec::new(),
            observe_regions: Vec::new(),
            deny_asns: Vec::new(),
            observe_asns: Vec::new(),
        },
        ..Default::default()
    }
}

fn local_map(contents: &str) -> CountrySource {
    let facts = FileFacts { length: contents.len() as u64, modified: Some(0) };
    CountrySource::Local(LocalMap {
        before: Ok(facts),
        time_fault: String::new(),
        now: 0,
        contents: Ok(contents.into()),
        after: Ok(facts),
    })
}

#[test]
fn the_longest_prefix_places_a_client() {
    let map = "US 192.0.0.0/16\nCA 192.0.2.0/24\n";
    let policy =
        Policy::new(map_config(Some(source_sha256(map.as_bytes()))), &[], &local_map(map)).unwrap();
    let placed = policy.tables.country_policy.as_ref().expect("map");
    assert_eq!(placed.country_for(ip("192.0.2.9")).as_deref(), Some("CA"));
    assert_eq!(placed.country_for(ip("192.0.3.9")).as_deref(), Some("US"));
    assert!(placed.denied(ip("192.0.3.9")) && !placed.observed(ip("192.0.3.9")));
    assert!(placed.observed(ip("192.0.2.9")) && !placed.denied(ip("192.0.2.9")));
    assert!(Policy::new(map_config(Some("00".repeat(32))), &[], &local_map(map)).is_err());
}

#[test]
fn configurations_are_bounded_and_must_stand_still() {
    let facts = |length: u64, modified: Option<i128>| FileFacts { length, modified };
    assert_eq!(config_size_fault(facts(1_048_576, None)), None);
    assert_eq!(config_size_fault(facts(1_048_577, None)), Some("configuration exceeds 1 MiB"));
    assert_eq!(config_change_fault(facts(4, Some(1)), facts(4, Some(1))), None);
    assert_eq!(
        config_change_fault(facts(4, Some(1)), facts(4, Some(2))),
        Some("configuration changed while it was being read")
    );
}

// ---- the cache -----------------------------------------------------------------------

#[test]
fn kept_answers_are_found_until_they_expire() {
    let mut cache = DnsCache::new(&CacheConfig {
        max_entries: 2,
        max_ttl_secs: 60,
        stale_ttl_secs: 30,
        negative_ttl_secs: 5,
    });
    let key = |name: &str| CacheKey::from_query(&query(name));
    assert!(!cache.insert(key("a.example"), DnsAnswer::ok(vec![record("a.example", 40, 1)]), 0));
    assert!(!cache.insert(key("b.example"), DnsAnswer::ok(vec![record("b.example", 20, 2)]), 0));
    assert!(cache.fresh(&key("A.Example."), 39_999).is_some());
    assert!(cache.fresh(&key("a.example"), 40_000).is_none());
    assert!(cache.stale_answer(&key("a.example"), 60_000).is_some());
    assert!(cache.insert(key("c.example"), DnsAnswer::name_error(), 0));
    assert_eq!(cache.len(), 2);
    assert!(cache.fresh(&key("b.example"), 0).is_none());
    assert!(cache.fresh(&key("c.example"), 4_999).is_some());
    cache.clear();
    assert_eq!(cache.len(), 0);
}

// ---- budgets -------------------------------------------------------------------------

#[test]
fn a_second_allows_what_its_limit_says() {
    let mut budget = AtomicWindowBudget::new();
    let granted = (0..10).filter(|_| budget.allow(5 * SECOND, 3, 1)).count();
    assert_eq!(granted, 3);
    assert!(budget.allow(6 * SECOND, 3, 3));
    assert!(!budget.allow(6 * SECOND, 3, 1));
}

#[test]
fn breakers_stay_open_for_their_cooldown() {
    let mut bucket = AtomicWindowBucket::new();
    assert!(!bucket.record_abuse(0, 10, 30, 2));
    assert!(bucket.record_abuse(0, 10, 30, 2));
    assert!(bucket.is_blocked(29 * SECOND) && !bucket.is_blocked(30 * SECOND));
    assert!(!bucket.abuse_allows(29 * SECOND, 10));
    bucket.release_blocked();
    assert!(bucket.abuse_allows(SECOND, 10));
    bucket.restore_blocked(SECOND, 10);
    assert!(bucket.is_blocked(SECOND) && !bucket.is_blocked(2 * SECOND));
}

#[test]
fn questions_forget_no_violation() {
    let mut config = Config::default();
    config.admission.ddos.max_global_abuse_violations = 2;
    config.admission.ddos.global_abuse_window_secs = 60;
    config.admission.ddos.global_abuse_cooldown_secs = 60;
    let mut policy = start(config);
    let limits = policy.admission_config();
    assert!(!policy.record_global_abuse(0));
    assert!(policy.traffic.allow_global_abuse(&limits, SECOND));
    assert!(policy.record_global_abuse(SECOND));
    assert!(!policy.traffic.allow_global_abuse(&limits, SECOND));

    let mut bucket = AtomicWindowBucket::new();
    assert!(!bucket.record_abuse(0, 10, 30, 2));
    assert!(bucket.shared_abuse_allows(10 * SECOND, 10));
    assert!(!bucket.record_abuse(11 * SECOND, 10, 30, 2));
    assert!(bucket.shared_abuse_allows(19 * SECOND, 10));
    assert!(bucket.record_abuse(19 * SECOND, 10, 30, 2));
}

#[test]
fn questions_in_another_second_count_a_client_anew() {
    let mut bucket = AtomicWindowBucket::new();
    assert!(!bucket.record_abuse(5 * SECOND, 10, 30, 2));
    assert!(bucket.abuse_allows(6 * SECOND, 10));
    assert!(!bucket.record_abuse(6 * SECOND, 10, 30, 2));
    assert!(bucket.abuse_allows(6 * SECOND, 10));
    assert!(bucket.record_abuse(6 * SECOND, 10, 30, 2));

    let mut config = Config::default();
    config.admission.max_client_abuse_violations = 2;
    let mut policy = start(config);
    let limits = policy.admission_config();
    let client = Some(ip("192.0.2.9"));
    assert!(!policy.traffic.record_client_abuse(&limits, client, 5 * SECOND));
    assert!(policy.traffic.allow_client_abuse(&limits, client, 6 * SECOND));
    assert!(!policy.traffic.record_client_abuse(&limits, client, 6 * SECOND));
    assert!(policy.traffic.record_client_abuse(&limits, client, 7 * SECOND));
    assert!(!policy.traffic.allow_client_abuse(&limits, client, 7 * SECOND));
}

#[test]
fn keys_tell_clients_and_networks_apart() {
    assert_eq!(ip_key(ip("192.0.2.1")), vec![4, 192, 0, 2, 1]);
    assert_eq!(ip_key(ip("::1")).len(), 17);
    let key = |text: &str| abuse_network_key(ip(text), 24, 64);
    assert_eq!(key("192.0.2.1"), key("192.0.2.200"));
    assert_ne!(key("192.0.2.1"), key("192.0.3.1"));
    assert_ne!(abuse_network_bytes(key("192.0.2.1")), abuse_network_bytes(key("192.0.3.1")));
    assert_ne!(
        abuse_network_bytes(abuse_network_key(ip("192.0.2.1"), 24, 64)),
        abuse_network_bytes(abuse_network_key(ip("192.0.2.1"), 25, 64))
    );
}

#[test]
fn full_tables_let_go_of_the_least_used() {
    let mut table: BucketTable<AtomicWindowBucket> = BucketTable::new();
    for index in 0..MAX_CLIENT_RATE_ENTRIES {
        let key = (index as u32).to_be_bytes();
        let at = table.get_or_insert(&key);
        let mut used = table.get(at);
        used.last_access = if index == 7 { 1 } else { 9 * SECOND };
        table.put(&key, at, used);
    }
    assert_eq!(table.len(), MAX_CLIENT_RATE_ENTRIES);
    let at = table.prepare(&[1]);
    assert_eq!(table.get(at).last_access, 0);
    assert_eq!(table.len(), MAX_CLIENT_RATE_ENTRIES);
    let at = table.get_or_insert(&7u32.to_be_bytes());
    assert_eq!(table.get(at).last_access, 0);
    let at = table.get_or_insert(&8u32.to_be_bytes());
    assert_eq!(table.get(at).last_access, 9 * SECOND);
}

#[test]
fn budgets_are_kept_by_key() {
    let mut table = KeyedWindowBudgetTable::new();
    assert!(table.allow(&[1], SECOND, 1, 1));
    assert!(!table.allow(&[1], SECOND, 1, 1));
    assert!(table.allow(&[2], SECOND, 1, 1));
    table.restore_blocked(&[2], SECOND, 5_000);
    assert!(!table.abuse_allows(&[2], 2 * SECOND, 10));
    table.release_blocked(&[2]);
    assert!(table.abuse_allows(&[2], 2 * SECOND, 10));
    assert_eq!(table.len(), 2);
    table.clear();
    assert_eq!(table.len(), 0);
}

#[test]
fn permits_are_counted_for_each_client() {
    let mut table = ClientAdmissionTable::new();
    let client = ip("192.0.2.1");
    let first = table.try_acquire(client, 2, SECOND).expect("first");
    let second = table.try_acquire(client, 2, SECOND).expect("second");
    assert!(table.try_acquire(client, 2, SECOND).is_none());
    assert!(table.try_acquire(ip("192.0.2.2"), 2, SECOND).is_some());
    table.release(first);
    assert!(table.try_acquire(client, 2, SECOND).is_some());
    table.release(second);
}

#[test]
fn forgotten_abuse_blocks_nobody() {
    let mut policy = start(Config::default());
    assert!(policy.restore_abuse_incident(ip("192.0.2.1"), 31_000, 1_000, SECOND));
    assert_eq!(policy.abuse_status(SECOND), (1, 1, false));
    assert_eq!(policy.clear_abuse_state(), 2);
    assert!(policy.allow_client_abuse(Some(ip("192.0.2.1")), SECOND));
}

#[test]
fn revoked_and_restored_incidents_hold() {
    let mut policy = start(Config::default());
    let client = ip("192.0.2.1");
    assert!(policy.restore_abuse_incident(client, 11_000, 1_000, SECOND));
    assert!(!policy.allow_client_abuse(Some(client), 10 * SECOND));
    policy.revoke_abuse_incident(client);
    let once = policy.abuse_status(SECOND);
    policy.revoke_abuse_incident(client);
    assert_eq!(policy.abuse_status(SECOND), once);
    assert!(policy.allow_client_abuse(Some(client), 2 * SECOND));
}

#[test]
fn checked_rules_collide_with_no_other_table() {
    let files = [list("a.txt", "a.example\n")];
    let mut config = Config::default();
    config.policy.blocklists = vec!["a.txt".into()];
    config.policy.regex_rules = vec![regex(6, "^b", Action::Drop)];
    let mut policy = Policy::new(config, &files, &no_map()).expect("valid policy");
    let listed = policy.tables.blocklist_rules[0].id;
    for id in [6, listed] {
        let proposed = [rule(id, "c.example", Action::Drop)];
        assert_eq!(policy.validate_rules(&proposed), Err(PolicyError::DuplicateRule { id }));
        assert!(policy.reload_rules(&proposed).is_err());
    }
    let proposed = [rule(7, "c.example", Action::Drop)];
    assert_eq!(policy.validate_rules(&proposed), Ok(()));
    assert_eq!(policy.reload_rules(&proposed), Ok(ReloadState::Published));
}

#[test]
fn limits_are_checked_and_kept() {
    let mut limits = AdmissionConfig::default();
    assert!(check_startup_admission(&limits).is_ok());
    assert!(validate_admission(&limits, limits.max_inflight_requests).is_ok());
    assert!(validate_admission(&limits, limits.max_inflight_requests + 1).is_err());
    let answer = DnsAnswer::ok((0..9).map(|last| record("a.example", 90, last)).collect());
    limits.max_response_records = 2;
    let capped = cap_answer(&limits, 60, "a.example", &answer);
    assert_eq!(capped.records.len(), 2);
    assert!(capped.records.iter().all(|record| record.ttl == 60));
    assert!(admission_allows(&limits, &query("a.example")));
    let mut any = query("a.example");
    any.qtype = 255;
    assert!(!admission_allows(&limits, &any));
}

// ---- leases --------------------------------------------------------------------------

#[test]
fn leases_belong_to_one_client_at_a_time() {
    let pool = Pool::new(10, 11).expect("pool");
    let mut leases = Leases::new();
    let client = |last: u8| [0, 0, 0, 0, 0, last];
    assert_eq!(pool.allocate(&mut leases, client(1), 0, 30), Some(10));
    assert_eq!(pool.allocate(&mut leases, client(2), 0, 30), Some(11));
    assert_eq!(pool.allocate(&mut leases, client(3), 0, 30), None);
    assert_eq!(leases.len(), 2);
    assert!(leases.holds(&client(1)) && !leases.holds(&client(3)));
    leases.expire(31);
    assert_eq!(leases.len(), 0);
    assert!(Pool::new(11, 10).is_none());
    assert_eq!(MessageType::from_wire(MessageType::Ack.code()), Some(MessageType::Ack));
    assert_eq!(MessageType::from_wire(9), None);
}

#[test]
fn replies_turned_into_requests_are_read_back() {
    let mut packet = vec![0u8; 240];
    packet[..3].copy_from_slice(&[1, 1, 6]);
    packet[4..8].copy_from_slice(&[1, 2, 3, 4]);
    packet[10] = 128;
    packet[28..34].copy_from_slice(&[9, 8, 7, 6, 5, 4]);
    packet[236..240].copy_from_slice(&[99, 130, 83, 99]);
    packet.extend([50, 4, 10, 0, 0, 9, 53, 1, 1, 255]);
    let asked = Request::parse(&packet).expect("request");
    assert_eq!(asked.requested_ip, Some(0x0a00_0009));
    let mut output = [0u8; 400];
    let config = ReplyConfig {
        server: 1,
        subnet_mask: 2,
        router: Some(3),
        dns: Some(4),
        dns_servers: &[5, 6],
        domain_name: Some("home.arpa"),
        lease_secs: 60,
    };
    let length = encode_reply(&asked, MessageType::Nak, 7, config, &mut output).expect("reply");
    output[0] = 1;
    let read = Request::parse(&output[..length]).expect("read back");
    assert_eq!(read.transaction_id, asked.transaction_id);
    assert_eq!(read.client, asked.client);
    assert_eq!(read.broadcast, asked.broadcast);
    assert_eq!(read.message_type, MessageType::Nak);
    assert_eq!((read.requested_ip, read.server_identifier), (None, None));
}

#[test]
fn servers_ignore_what_is_no_request() {
    let mut server = Responder::new(&DhcpConfig::default()).expect("server");
    let peer = SocketAddr::parse("192.0.2.77:68").unwrap();
    assert!(server.respond(&[0; 20], peer, 0).is_none());
    assert_eq!(server.leases.len(), 0);
}

#[test]
fn servers_hold_no_more_leases_than_their_limit() {
    let config = DhcpConfig { max_leases: 2, lease_secs: 30, ..Default::default() };
    let mut server = Responder::new(&config).expect("server");
    let peer = SocketAddr::parse("192.0.2.77:68").unwrap();
    let discover = |last: u8| {
        let mut packet = vec![0u8; 240];
        packet[..3].copy_from_slice(&[1, 1, 6]);
        packet[33] = last;
        packet[236..240].copy_from_slice(&[99, 130, 83, 99]);
        packet.extend([53, 1, 1, 255]);
        packet
    };
    assert!(server.respond(&discover(1), peer, 0).is_some());
    assert!(server.respond(&discover(2), peer, 10).is_some());
    assert!(server.respond(&discover(3), peer, 20).is_none());
    assert!(server.respond(&discover(2), peer, 20).is_some());
    assert_eq!(server.leases.len(), 2);
    assert!(server.respond(&discover(3), peer, 31).is_some());
    assert_eq!(server.leases.len(), 2);
}

// ---- settings and errors -------------------------------------------------------------

#[test]
fn nothing_is_captured_or_leased_by_default() {
    let config = Config::default();
    assert!(!config.capture.enabled);
    assert_eq!(config.capture.inbound_port, 53);
    assert_eq!(config.capture.chain, "capture");
    assert_eq!(config.capture.mark, 42);
    assert_eq!(config.capture.ownership_path, "/var/lib/blackhole/capture.state");
    assert_eq!(config.capture.original_destination, "127.0.0.1:53");
    assert!(!config.dhcp.enabled);
    assert_eq!(config.dhcp.listen, "0.0.0.0:67");
    assert_eq!(config.dhcp.server, "192.0.2.1");
    assert_eq!(config.dhcp.subnet_mask, "255.255.255.0");
    assert_eq!(config.dhcp.pool_start, "192.0.2.100");
    assert_eq!(config.dhcp.pool_end, "192.0.2.199");
    assert!(config.dhcp.router.is_none() && config.dhcp.dns.is_none());
    assert!(config.dhcp.dns_servers.is_empty() && config.dhcp.domain_name.is_none());
    assert_eq!((config.dhcp.lease_secs, config.dhcp.max_leases), (3600, 256));
}

#[test]
fn errors_are_told_in_words() {
    let text = |value: &str| value.to_owned();
    let told = [
        (PolicyError::TooManyRules { max: 65_536 }, "rule count exceeds 65536"),
        (PolicyError::DuplicateRule { id: 7 }, "duplicate rule id 7"),
        (
            PolicyError::InvalidDomain { id: 1, domain: text("a..b") },
            "rule 1: invalid domain a..b",
        ),
        (PolicyError::InvalidSelector { id: 0, field: text("client") }, "rule 0: ambiguous client"),
        (
            PolicyError::InvalidClientCidr { id: 3, value: text("x/1") },
            "rule 3: invalid client CIDR x/1",
        ),
        (PolicyError::InvalidClientIdentity { id: 4 }, "rule 4: invalid client identity"),
        (
            PolicyError::InvalidBlocklist { path: text("a.txt"), reason: text("empty") },
            "blocklist a.txt: empty",
        ),
        (
            PolicyError::InvalidCountryMap { path: text("m"), reason: text("stale") },
            "country map m: stale",
        ),
        (
            PolicyError::InvalidProfile { name: text("kids"), reason: text("empty") },
            "profile kids: empty",
        ),
        (
            PolicyError::InvalidRewrite { name: text("a"), reason: text("mixed") },
            "rewrite a: mixed",
        ),
        (PolicyError::TooManyRegexRules { max: 256 }, "regex rule count exceeds 256"),
        (PolicyError::InvalidRegex { id: 9, reason: text("open") }, "regex rule 9: open"),
        (PolicyError::InvalidCache { reason: text("zero") }, "cache: zero"),
        (PolicyError::InvalidAdmission { reason: text("zero") }, "admission: zero"),
        (PolicyError::InvalidConfigReload { reason: text("size") }, "configuration reload: size"),
        (PolicyError::InvalidUpstream { reason: text("port") }, "upstream: port"),
        (PolicyError::InvalidDhcp { reason: text("pool") }, "dhcp: pool"),
        (
            PolicyError::InvalidClientIdentityMap { name: text("tv"), reason: text("twice") },
            "client identity tv: twice",
        ),
    ];
    for (error, words) in told {
        assert_eq!(error.message(), words);
    }
    let query = EdgeError::Query(QueryParseError::Short);
    assert_eq!(query.message(), "edge query: query_wire_short");
    let policy = EdgeError::Policy(PolicyError::DuplicateRule { id: 7 });
    assert_eq!(policy.message(), "edge policy: duplicate rule id 7");
}

// ---- local answers -------------------------------------------------------------------

#[test]
fn exact_rewrites_win_over_wildcards() {
    let table =
        compile_rewrites(&[rewrite("*.home.arpa", 1), rewrite("tv.home.arpa", 2)]).expect("table");
    let last = |name: &str| table.answer(&query(name)).map(|answer| answer.records[0].rdata[3]);
    assert_eq!(last("tv.home.arpa."), Some(2));
    assert_eq!(last("radio.home.arpa."), Some(1));
    assert_eq!(last("old.radio.home.arpa."), None);
    assert_eq!(last("home.arpa."), None);
}

// ---- what operators see --------------------------------------------------------------

#[test]
fn listings_hold_as_many_rules_as_fit() {
    assert_eq!(rules_body(&[]), "{\"rules\":[],\"total\":0,\"truncated\":false}");
    assert_eq!(
        rules_body(&["{}".into(), "{}".into()]),
        "{\"rules\":[{},{}],\"total\":2,\"truncated\":false}"
    );
    let long = format!("\"{}\"", "x".repeat(40_000));
    let body = rules_body(&[long.clone(), long.clone(), "1".into()]);
    assert!(body.ends_with("],\"total\":3,\"truncated\":true}"));
    assert!(body.len() <= 65_536 && body.len() > 40_000);
    assert_eq!(page(1_024), (1_024, false));
    assert_eq!(page(1_025), (1_024, true));
    assert_eq!(bundle_body("{}".into()), Ok("{}".to_string()));
    assert!(bundle_body("x".repeat(65_537)).is_err());
}

#[test]
fn actions_have_their_labels_and_counters() {
    assert_eq!(action_label(Action::Nxdomain), "nxdomain");
    assert_eq!(action_label(Action::Honeypot), "honeypot");
    let actions = [
        Action::Pass,
        Action::Ignore,
        Action::Drop,
        Action::Reject,
        Action::Nxdomain,
        Action::Sink,
        Action::Honeypot,
        Action::Forward,
        Action::Observe,
    ];
    let mut seen: Vec<usize> = actions.iter().map(|action| action_index(*action)).collect();
    seen.sort();
    assert_eq!(seen, (0..9).collect::<Vec<_>>());
}

#[test]
fn files_are_described_by_their_state() {
    assert_eq!(source_kind(None), "none");
    assert_eq!(source_kind(Some("map.txt")), "local_file");
    assert_eq!(source_kind(Some("https://maps.example/map")), "hosted_http");
    assert_eq!(local_map_status(FileState::Missing, None), ("missing", None, Some(false)));
    assert_eq!(
        local_map_status(FileState::Found { age_secs: Some(61) }, Some(60)),
        ("ok", Some(61), Some(false))
    );
    assert_eq!(list_file_status(true, FileState::Missing, 0), ("remote", 0, None));
    assert_eq!(list_file_status(false, FileState::Unreadable, 9), ("unreadable", 0, None));
    assert_eq!(
        list_file_status(false, FileState::Found { age_secs: Some(4) }, u64::MAX),
        ("ok", MAX_BLOCKLIST_BYTES, Some(4))
    );
}

// ---- recordings ----------------------------------------------------------------------

#[test]
fn recordings_are_bounded() {
    assert_eq!(
        RecordingBudget::new(11, 10),
        Err("query recording already exceeds configured limit: 11 > 10".to_string())
    );
    let mut budget = RecordingBudget::new(4, 10).expect("budget");
    assert_eq!(
        budget.reserve(7),
        Err("query recording byte limit reached: 11 > 10".to_string())
    );
    assert_eq!(
        budget.reserve(u64::MAX),
        Err("query recording byte limit overflow".to_string())
    );
    assert_eq!(budget.reserve(6), Ok(()));
    assert_eq!(incident_expiry(1_000, 30, 60), 61_000);
    assert_eq!(export_limit(u64::MAX), 8_388_608);
    let targets = recording_targets("log.jsonl");
    assert_eq!(targets.len(), 17);
    assert_eq!((targets[0].as_str(), targets[16].as_str()), ("log.jsonl", "log.jsonl.16"));
}

#[test]
fn cleared_logs_go_on() {
    let mut config = Config::default();
    config.privacy.query_log_enabled = true;
    config.privacy.query_log_max_entries = 4;
    let mut policy = start(config);
    policy.record_decision(Action::Drop, 1, 1, 1_000);
    let reply = policy.perform(AdminCommand::ClearLogs, &[], &no_map());
    assert!(matches!(reply, AdminReply::Cleared { status: 200, entries: 1 }));
    assert_eq!(policy.query_log.as_ref().map(|log| log.max_entries), Some(4));
    policy.record_decision(Action::Drop, 1, 1, 2_000);
    assert_eq!(policy.logged_decisions(2_000).map(|(shown, _)| shown.len()), Some(1));
}

#[test]
fn exports_are_bounded() {
    let mut export = IncidentExport::new();
    for ts_ms in 0..2_000 {
        export
            .accept(ExportEvent {
                ts_ms,
                kind: "blackhole.ddos_incident".into(),
                payload: "{}".into(),
            })
            .expect("incident");
    }
    assert!(export.truncated());
    assert!(export.events.len() <= 1_024);
    assert_eq!(export.events.last().map(|event| event.ts_ms), Some(1_999));
}

#[test]
fn recordings_are_inspected_before_they_are_deleted() {
    assert!(Deletion::new(None).is_err());
    let mut deletion = Deletion::new(Some("log.jsonl")).expect("deletion");
    for index in 0..17 {
        assert_eq!(deletion.phase, DeletionPhase::Inspecting);
        let report = if index < 2 { FileReport::File } else { FileReport::Missing };
        assert_eq!(deletion.told(report), Ok(None));
    }
    assert_eq!(deletion.target(), "log.jsonl");
    for index in 0..17 {
        assert_eq!(deletion.phase, DeletionPhase::Removing);
        let report = if index < 2 { FileReport::File } else { FileReport::Missing };
        assert_eq!(deletion.told(report), Ok(None));
    }
    for _ in 0..16 {
        assert_eq!(deletion.told(FileReport::Missing), Ok(None));
    }
    assert_eq!(deletion.told(FileReport::Missing), Ok(Some(2)));
}

#[test]
fn deletions_stop_at_what_is_in_the_way() {
    let mut deletion = Deletion::new(Some("log")).expect("deletion");
    assert_eq!(
        deletion.told(FileReport::Other),
        Err("recording target log is not a regular file".to_string())
    );
    assert_eq!(
        deletion.told(FileReport::Failed("denied".into())),
        Err("inspect recording target log: denied".to_string())
    );
    for _ in 0..17 {
        deletion.told(FileReport::Missing).expect("inspected");
    }
    assert_eq!(
        deletion.told(FileReport::Failed("busy".into())),
        Err("delete recording target log: busy".to_string())
    );
    for _ in 0..17 {
        deletion.told(FileReport::Missing).expect("removed");
    }
    assert_eq!(
        deletion.told(FileReport::File),
        Err("recording target log remains after deletion".to_string())
    );
    assert_eq!(
        recording_parent_fault("dir", &Ok(false)).as_deref(),
        Some("recording parent dir is not a directory")
    );
    assert_eq!(recording_parent_fault("dir", &Ok(true)), None);
}

// ---- capture and the edge ------------------------------------------------------------

#[test]
fn journals_give_back_what_was_saved() {
    let record = NftRulePlan::for_ports("capture", 53, 5353, u32::MAX).unwrap().ownership();
    let text = FileOwnershipStore::encode(&record);
    assert_eq!(text, "blackhole\ncapture\n53\n5353\n4294967295\n");
    assert_eq!(FileOwnershipStore::decode(&text), Some(record));
    assert_eq!(FileOwnershipStore::decode("blackhole\ncapture\n+53\n65536\n42\n"), None);
}

#[test]
fn a_journal_that_was_cut_off_holds_no_record() {
    let whole = "blackhole\ncapture\n53\n5353\n42\n";
    assert!(FileOwnershipStore::decode(whole).is_some());
    for length in 0..whole.len() {
        assert_eq!(FileOwnershipStore::decode(&whole[..length]), None);
    }
}

struct Sound;

impl RuleBackend for Sound {
    type Plan = NftRulePlan;

    fn install(&mut self, _plan: &NftRulePlan) -> Result<(), String> {
        Ok(())
    }

    fn verify(&mut self, _plan: &NftRulePlan) -> Result<(), String> {
        Ok(())
    }

    fn remove(&mut self, _plan: &NftRulePlan) -> Result<(), String> {
        Err("no \"table\"".into())
    }
}

struct Gone;

impl RuleBackend for Gone {
    type Plan = NftRulePlan;

    fn install(&mut self, _plan: &NftRulePlan) -> Result<(), String> {
        Ok(())
    }

    fn verify(&mut self, _plan: &NftRulePlan) -> Result<(), String> {
        Err("gone".into())
    }

    fn remove(&mut self, _plan: &NftRulePlan) -> Result<(), String> {
        Ok(())
    }
}

/// A store that holds a record and cannot be written.
struct ReadOnly(Option<String>);

impl OwnershipStore for ReadOnly {
    fn load(&self) -> Result<Option<CaptureOwnership>, String> {
        Ok(self.0.as_deref().and_then(FileOwnershipStore::decode))
    }

    fn save(&mut self, _ownership: &CaptureOwnership) -> Result<(), String> {
        Err("disk is full".into())
    }

    fn clear(&mut self) -> Result<(), String> {
        Err("disk is read-only".into())
    }
}

#[test]
fn a_failed_save_is_reported_and_rolled_back() {
    let plan = NftRulePlan::new("capture", 5353, 42).unwrap();
    let mut controller = CaptureController::with_store(Sound, ReadOnly(None));
    let failed = controller.install(&plan).unwrap_err();
    assert_eq!(
        failed,
        CaptureError::Transaction {
            error: "disk is full".into(),
            rollback: Err("no \"table\"".into()),
        }
    );
    assert_eq!(
        failed.message(),
        "capture verification failed: disk is full; rollback: Err(\"no \\\"table\\\"\")"
    );
    assert_eq!(controller.status(), InstallState::Failed);
    assert_eq!(
        transaction_text("e", None),
        "capture verification failed: e; rollback: Ok(())"
    );
}

#[test]
fn a_failed_clear_is_reported() {
    let plan = NftRulePlan::new("capture", 5353, 42).unwrap();
    let journal = FileOwnershipStore::encode(&plan.ownership());
    let mut controller = CaptureController::with_store(Gone, ReadOnly(Some(journal)));
    assert_eq!(
        controller.recover(&plan),
        Err(CaptureError::Backend("disk is read-only".into()))
    );
    assert_eq!(controller.status(), InstallState::Uninstalled);
}

#[test]
fn firewall_commands_name_the_planned_chain() {
    let plan = NftRulePlan::new("capture", 5353, 42).unwrap();
    let backend = NftCommandBackend::new("nft");
    assert_eq!(
        backend.remove_command(&plan).args,
        ["delete", "chain", "inet", "blackhole", "capture"]
    );
    assert_eq!(backend.install_command(&plan).input.as_deref(), Some(plan.render().as_str()));
    assert_eq!(backend.verify_command(&plan).args, ["list", "table", "inet", "blackhole"]);
    assert!(FileOwnershipStore::new("").validate_path().is_err());
    assert!(FileOwnershipStore::new("capture.state").validate_path().is_ok());
}

#[test]
fn blocks_of_the_heap_do_not_overlap() {
    let mut heap = BumpAllocator::new();
    assert_eq!(heap.allocate(0, 10, 8), Some(0));
    assert_eq!(heap.allocate(0, 4, 8), Some(16));
    assert_eq!(heap.allocate(3, 1, 4), Some(21));
    assert_eq!(heap.allocate(0, HEAP_BYTES, 1), None);
    reset(&mut heap);
    assert_eq!(heap.allocate(0, HEAP_BYTES, 1), Some(0));
}
