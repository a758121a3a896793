use blackhole::admin::{bears_token, body_too_long, route, validate_bind, validate_token, AdminCommand,
    AdminReply, BundleBody, Route, MAX_POLICY_BODY_BYTES};
use blackhole::blocklist::BlocklistSource;
use blackhole::country::CountrySource;
use blackhole::dhcp::{encode_reply, Leases, MessageType, ParseError, Pool, ReplyConfig, Request,
    Responder, MAX_DHCP_PACKET};
use blackhole::dns::{encode_name, DnsQuery};
use blackhole::edge::{decide, EdgePolicy};
use blackhole::fsm::{CloseReason, DecisionState, DropReason, Event, TransitionError};
use blackhole::linux_capture::{CaptureContext, CaptureController, CaptureError, CaptureOwnership,
    CapturePlan, FileOwnershipStore, InstallState, MemoryOwnershipStore, NftRulePlan,
    OwnershipStore, ReplyRoute, RuleBackend};
use blackhole::listener::{answered, datagram_fault, frame_reply, next_message, request, Absorbed, Intake, IntakeStep,
    TcpFrames, ORIGINAL_DESTINATION_METADATA};
use blackhole::listing::rules_body;
use blackhole::net::{IpAddr, SocketAddr};
use blackhole::policy::{Decision, PolicyError};
use blackhole::query::{QueryView, MAX_QUERY_BYTES};
use blackhole::serving::{Next, UpstreamSlot};
use blackhole::{Action, ClientGroupConfig, Config, CountryPolicyConfig, DhcpConfig, Policy,
    RegexRuleConfig, RewriteConfig, RuleConfig, ServiceProfileConfig};

const SECOND: u64 = 1_000_000;

fn no_map() -> CountrySource {
    CountrySource::Remote(Err("no map was read".into()))
}

fn start(config: Config) -> Policy {
    let files: [BlocklistSource; 0] = [];
    Policy::new(config, &files, &no_map()).expect("valid policy")
}

fn address(a: u8, b: u8, c: u8, d: u8) -> u32 {
    u32::from_be_bytes([a, b, c, d])
}

fn socket(text: &str) -> SocketAddr {
    SocketAddr::parse(text).expect("socket address")
}

fn rule(id: u32, domain: &str, action: Action) -> RuleConfig {
    RuleConfig {
        enabled: true,
        id,
        domain: domain.into(),
        action,
        priority: 0,
        qtype: None,
        qtypes: Vec::new(),
        qclass: None,
        qclasses: Vec::new(),
        client: None,
        client_cidr: None,
        client_cidrs: Vec::new(),
        client_identity: None,
    }
}

fn regex(id: u32, pattern: &str, action: Action) -> RegexRuleConfig {
    RegexRuleConfig {
        enabled: true,
        id,
        pattern: pattern.into(),
        action,
        priority: 0,
        qtype: None,
        qtypes: Vec::new(),
        qclass: None,
        qclasses: Vec::new(),
        client: None,
        client_cidrs: Vec::new(),
    }
}

fn profile(id: u32, name: &str, domains: &[&str], action: Action) -> ServiceProfileConfig {
    ServiceProfileConfig {
        id,
        name: name.into(),
        enabled: true,
        domains: domains.iter().map(|domain| domain.to_string()).collect(),
        action,
        groups: Vec::new(),
        client_identity: None,
        priority: 0,
        client_cidrs: Vec::new(),
        qtype: None,
        qtypes: Vec::new(),
        qclass: None,
        qclasses: Vec::new(),
    }
}

fn packet(id: u16, name: &str) -> Vec<u8> {
    let mut wire = vec![(id >> 8) as u8, id as u8, 1, 0, 0, 1, 0, 0, 0, 0, 0, 0];
    wire.extend(encode_name(name).expect("name"));
    wire.extend([0, 1, 0, 1]);
    wire
}

fn query(name: &str) -> DnsQuery {
    DnsQuery { id: 1, recursion_desired: true, name: name.into(), qtype: 1, qclass: 1 }
}

// ---- operators -----------------------------------------------------------------------

fn perform(policy: &mut Policy, command: AdminCommand) -> AdminReply {
    policy.perform(command, &[], &no_map())
}

fn status(reply: &AdminReply) -> u16 {
    match reply {
        AdminReply::Cleared { status, .. } => *status,
        AdminReply::Done { status, .. } => *status,
        AdminReply::Refused { status, .. } => *status,
        AdminReply::Unusable { status, .. } => *status,
    }
}

#[test]
fn health_and_unknown_routes_are_bounded() {
    let mut policy = start(Config::default());
    assert_eq!(route("GET", "/health"), Ok(Route::Health));
    assert_eq!(route("GET", "/"), Ok(Route::Page));
    assert_eq!(route("POST", "/cache/clear"), Ok(Route::ClearCache));
    let clear = perform(&mut policy, AdminCommand::ClearCache);
    assert!(matches!(clear, AdminReply::Cleared { status: 200, entries: 0 }));
    assert_eq!(route("GET", "/status"), Ok(Route::Status));
    let told = policy.policy_status();
    assert!(!told.rules_configured);
    assert_eq!(told.profiles, 0);
    assert_eq!(told.client_groups, 0);
    assert!(policy.config.upstream.is_none());
    assert!(!told.country_configured);
    assert_eq!(told.cache_entries, 0);
    assert_eq!(route("GET", "/rules"), Ok(Route::Rules));
    let rules: serde_json::Value = serde_json::from_str(&rules_body(&[])).expect("rules JSON");
    assert_eq!(rules["total"], 0);
    assert_eq!(rules["truncated"], false);
    assert_eq!(route("GET", "/logs"), Ok(Route::Logs));
    assert!(policy.logged_decisions(0).is_none());
    assert_eq!(route("POST", "/logs/clear"), Ok(Route::ClearLogs));
    let clear_logs = perform(&mut policy, AdminCommand::ClearLogs);
    assert!(matches!(clear_logs, AdminReply::Cleared { status: 200, entries: 0 }));
    assert_eq!(route("GET", "/private"), Err(404));
    assert_eq!(route("GET", "/reload/blocklists"), Err(405));
    assert_eq!(route("GET", "/reload/country"), Err(405));
    assert_eq!(route("POST", "/status"), Err(405));
    assert_eq!(route("POST", "/rules"), Err(405));
}

fn listing(policy: &Policy) -> serde_json::Value {
    let mut entries = Vec::new();
    for rule in &policy.tables.base_rules {
        entries.push(format!(
            "{{\"kind\":\"domain\",\"id\":{},\"domain\":\"{}\",\"action\":\"{}\"}}",
            rule.id,
            rule.domain,
            blackhole::decisions::action_label(rule.action)
        ));
    }
    for rule in &policy.tables.regex_rules.rules {
        entries.push(format!(
            "{{\"kind\":\"regex\",\"id\":{},\"pattern\":\"{}\"}}",
            rule.id, rule.pattern
        ));
    }
    let body = rules_body(&entries);
    assert!(body.len() <= 64 * 1024);
    serde_json::from_str(&body).expect("rules JSON")
}

#[test]
fn rules_route_lists_metadata_and_caps_large_responses() {
    let mut config = Config::default();
    let mut blocked = rule(7, "blocked.example", Action::Nxdomain);
    blocked.priority = 4;
    blocked.qtype = Some(1);
    blocked.qclass = Some(1);
    config.policy.rules = vec![blocked];
    config.policy.regex_rules = (0..80)
        .map(|id| regex(100 + id, &format!("^host{id}{}$", "a".repeat(900)), Action::Drop))
        .collect();
    let mut family = profile(400, "family", &["ads.example"], Action::Nxdomain);
    family.groups = vec!["home".into()];
    family.priority = 10;
    config.policy.profiles = vec![family];
    config.policy.client_groups = vec![ClientGroupConfig {
        name: "home".into(),
        enabled: true,
        client_addresses: Vec::new(),
        client_cidrs: vec!["192.0.2.0/24".into()],
    }];
    let mut policy = start(config);
    let body = listing(&policy);
    assert_eq!(body["total"], 82);
    assert_eq!(body["truncated"], true);
    assert_eq!(body["rules"][0]["kind"], "domain");
    assert_eq!(body["rules"][0]["action"], "nxdomain");
    assert_eq!(policy.tables.profiles.len(), 1);
    assert_eq!(policy.tables.profiles[0].name, "family");
    assert_eq!(policy.tables.client_groups.len(), 1);
    assert_eq!(policy.tables.client_groups[0].name, "home");

    let mut next = profile(500, "new-family", &["new.example"], Action::Reject);
    next.priority = 8;
    let replacement =
        perform(&mut policy, AdminCommand::ReloadProfiles(vec![next], Vec::new()));
    assert_eq!(status(&replacement), 200);
    assert_eq!(policy.tables.profiles.len(), 1);
    assert_eq!(policy.tables.profiles[0].name, "new-family");
    assert_eq!(
        listing(&policy)["total"],
        82,
        "explicit, profile, and regex rules remain"
    );
}

#[test]
fn profile_reload_rejects_invalid_replacement_without_publishing() {
    let mut policy = start(Config::default());
    let bad = profile(1, "bad", &[], Action::Drop);
    let response = perform(&mut policy, AdminCommand::ReloadProfiles(vec![bad], Vec::new()));
    assert_eq!(status(&response), 422);
    assert_eq!(policy.tables.profiles.len(), 0);
}

fn bundle(rules: Vec<RuleConfig>, regex_rules: Vec<RegexRuleConfig>) -> BundleBody {
    BundleBody {
        rules,
        regex_rules,
        profiles: Vec::new(),
        client_groups: Vec::new(),
        rewrites: Vec::new(),
        country_policy: CountryPolicyConfig::default(),
    }
}

#[test]
fn policy_bundle_replaces_all_tables_in_one_validated_snapshot() {
    let mut policy = start(Config::default());
    let mut body = bundle(
        vec![rule(7, "blocked.example", Action::Nxdomain)],
        vec![regex(8, "^ads\\.", Action::Drop)],
    );
    body.profiles = vec![profile(9, "family", &["family.example"], Action::Reject)];
    body.rewrites = vec![RewriteConfig {
        name: "router.example".into(),
        ipv4: Some(address(192, 0, 2, 1)),
        ipv6: None,
        cname: None,
        ttl: 30,
    }];
    let response = perform(&mut policy, AdminCommand::ReloadPolicyBundle(body));
    assert_eq!(status(&response), 200);
    assert_eq!(policy.tables.profiles.len(), 1);
    let mut wire = vec![0, 1, 1, 0, 0, 1, 0, 0, 0, 0, 0, 0];
    wire.extend_from_slice(&[6, b'f', b'a', b'm', b'i', b'l', b'y', 7]);
    wire.extend_from_slice(b"example");
    wire.extend_from_slice(&[0, 0, 1, 0, 1]);
    let view = QueryView::parse(&wire).expect("profile query");
    assert_eq!(policy.action_for_view(view), Action::Reject);
    let answer = policy.evaluate(&query("router.example.")).expect("rewrite answer");
    assert_eq!(answer.records[0].rdata, vec![192, 0, 2, 1]);
    let invalid = bundle(
        vec![rule(7, "other.example", Action::Drop)],
        vec![regex(7, "^other$", Action::Drop)],
    );
    let response = perform(&mut policy, AdminCommand::ReloadPolicyBundle(invalid));
    assert_eq!(status(&response), 422);
    assert_eq!(policy.tables.profiles[0].name, "family");
    let answer = policy.evaluate(&query("router.example.")).expect("retained rewrite");
    assert_eq!(answer.records[0].rdata, vec![192, 0, 2, 1]);
}

#[test]
fn policy_reload_publishes_valid_rules_and_rejects_bad_json() {
    let mut policy = start(Config::default());
    let valid = AdminCommand::ReloadPolicy(vec![rule(7, "blocked.example", Action::Nxdomain)]);
    assert_eq!(status(&perform(&mut policy, valid)), 200);
    let mut query_wire = vec![0, 1, 1, 0, 0, 1, 0, 0, 0, 0, 0, 0];
    query_wire.extend_from_slice(b"\x07blocked\x07example\0\0\x01\0\x01");
    let blocked = QueryView::parse(&query_wire).expect("query");
    assert_eq!(policy.action_for_view(blocked), Action::Nxdomain);

    let addition = AdminCommand::AddPolicy(vec![rule(8, "added.example", Action::Drop)]);
    assert_eq!(status(&perform(&mut policy, addition)), 200);
    let mut added_wire = vec![0, 2, 1, 0, 0, 1, 0, 0, 0, 0, 0, 0];
    added_wire.extend_from_slice(b"\x05added\x07example\0\0\x01\0\x01");
    let added = QueryView::parse(&added_wire).expect("added query");
    assert_eq!(policy.action_for_view(added), Action::Drop);
    assert_eq!(policy.action_for_view(blocked), Action::Nxdomain);

    assert_eq!(status(&perform(&mut policy, AdminCommand::RemovePolicy(vec![8]))), 200);
    assert_eq!(policy.action_for_view(added), Action::Pass);
    assert_eq!(policy.action_for_view(blocked), Action::Nxdomain);

    assert_eq!(status(&perform(&mut policy, AdminCommand::RemovePolicy(vec![999]))), 422);
    assert_eq!(policy.action_for_view(blocked), Action::Nxdomain);

    let empty = perform(&mut policy, AdminCommand::ReloadPolicy(Vec::new()));
    assert_eq!(status(&empty), 422);
}

#[test]
fn regex_reload_replaces_rules_and_allows_clearing_them() {
    let mut policy = start(Config::default());
    let valid =
        AdminCommand::ReloadRegex(vec![regex(9, "^blocked\\.example$", Action::Nxdomain)]);
    assert_eq!(status(&perform(&mut policy, valid)), 200);
    let mut query_wire = vec![0, 1, 1, 0, 0, 1, 0, 0, 0, 0, 0, 0];
    query_wire.extend_from_slice(b"\x07blocked\x07example\0\0\x01\0\x01");
    let blocked = QueryView::parse(&query_wire).expect("query");
    assert_eq!(policy.action_for_view(blocked), Action::Nxdomain);

    assert_eq!(
        policy.reload_rules(&[rule(9, "other.example", Action::Drop)]),
        Err(PolicyError::DuplicateRule { id: 9 })
    );
    assert_eq!(policy.action_for_view(blocked), Action::Nxdomain);

    assert_eq!(status(&perform(&mut policy, AdminCommand::ReloadRegex(Vec::new()))), 200);
    assert_eq!(policy.action_for_view(blocked), Action::Pass);
}

#[test]
fn country_reload_route_reloads_the_configured_snapshot() {
    let mut policy = start(Config::default());
    assert_eq!(route("POST", "/reload/country"), Ok(Route::ReloadCountry));
    let reload = perform(&mut policy, AdminCommand::ReloadCountry);
    assert!(matches!(reload, AdminReply::Done { status: 200, word: "reloaded" }));
}

#[test]
fn bearer_auth_is_required_and_tokens_are_validated() {
    assert!(validate_token("").is_err());
    assert!(validate_token("secret-token").is_ok());
    assert!(!bears_token("", "secret-token"));
    assert!(!bears_token("Bearer secret-tokem", "secret-token"));
    assert!(bears_token("Bearer secret-token", "secret-token"));
}

#[test]
fn admin_bind_must_be_loopback_without_tls() {
    assert!(validate_bind(socket("127.0.0.1:8081")).is_ok());
    assert!(validate_bind(socket("[::1]:8081")).is_ok());
    assert!(validate_bind(socket("192.0.2.1:8081")).is_err());
}

#[test]
fn bodies_of_changes_are_bounded() {
    assert!(!body_too_long(Route::ReloadPolicy, MAX_POLICY_BODY_BYTES));
    assert!(body_too_long(Route::ReloadPolicy, MAX_POLICY_BODY_BYTES + 1));
}

// ---- leases --------------------------------------------------------------------------

const OPTION_MESSAGE_TYPE: u8 = 53;
const OPTION_DOMAIN_NAME: u8 = 15;
const OPTION_END: u8 = 255;

fn discover() -> Vec<u8> {
    let mut packet = vec![0u8; 240];
    packet[0] = 1;
    packet[1] = 1;
    packet[2] = 6;
    packet[4..8].copy_from_slice(&0x1234_5678u32.to_be_bytes());
    packet[28..34].copy_from_slice(&[0, 1, 2, 3, 4, 5]);
    packet[236..240].copy_from_slice(&[99, 130, 83, 99]);
    packet.extend_from_slice(&[OPTION_MESSAGE_TYPE, 1, MessageType::Discover.code(), OPTION_END]);
    packet
}

#[test]
fn parses_bounded_discover_and_encodes_offer() {
    let packet = discover();
    let request = Request::parse(&packet).expect("discover");
    assert_eq!(request.transaction_id, 0x1234_5678);
    assert_eq!(request.client, [0, 1, 2, 3, 4, 5]);
    let mut output = [0u8; MAX_DHCP_PACKET];
    let length = encode_reply(
        &request,
        MessageType::Offer,
        address(192, 0, 2, 20),
        ReplyConfig {
            server: address(192, 0, 2, 1),
            subnet_mask: address(255, 255, 255, 0),
            router: None,
            dns: Some(address(192, 0, 2, 1)),
            dns_servers: &[address(192, 0, 2, 2), address(192, 0, 2, 3)],
            domain_name: Some("home.arpa"),
            lease_secs: 300,
        },
        &mut output,
    )
    .expect("offer");
    assert_eq!(&output[16..20], &[192, 0, 2, 20]);
    assert_eq!(&output[240..243], &[OPTION_MESSAGE_TYPE, 1, 2]);
    assert!(output[..length]
        .windows(14)
        .any(|window| window == [6, 12, 192, 0, 2, 1, 192, 0, 2, 2, 192, 0, 2, 3]));
    let domain_option = [
        OPTION_DOMAIN_NAME,
        "home.arpa".len() as u8,
        b'h',
        b'o',
        b'm',
        b'e',
        b'.',
        b'a',
        b'r',
        b'p',
        b'a',
    ];
    assert!(output[..length]
        .windows(domain_option.len())
        .any(|window| window == domain_option));
    assert!(length < MAX_DHCP_PACKET);
}

#[test]
fn rejects_invalid_or_unbounded_packets() {
    assert_eq!(Request::parse(&[0; 239]), Err(ParseError::TooShort));
    let mut packet = discover();
    packet[0] = 2;
    assert_eq!(Request::parse(&packet), Err(ParseError::InvalidOperation));
    packet = vec![0; MAX_DHCP_PACKET + 1];
    assert_eq!(Request::parse(&packet), Err(ParseError::TooShort));

    let mut packet = discover();
    packet[242] = 99;
    assert_eq!(Request::parse(&packet), Err(ParseError::UnsupportedMessageType));
}

#[test]
fn pool_reuses_live_leases_and_expires_them() {
    let pool = Pool::new(address(192, 0, 2, 10), address(192, 0, 2, 11)).expect("pool");
    let mut leases = Leases::new();
    let client = [0, 1, 2, 3, 4, 5];
    let first = pool.allocate(&mut leases, client, 10, 30).expect("first");
    assert_eq!(pool.allocate(&mut leases, client, 20, 30), Some(first));
    assert_eq!(
        pool.allocate(&mut leases, [6, 7, 8, 9, 10, 11], 20, 30),
        Some(address(192, 0, 2, 11))
    );
    assert_eq!(
        pool.allocate(&mut leases, [12, 13, 14, 15, 16, 17], 51, 30),
        Some(first)
    );
    assert_eq!(
        pool.allocate_requested(
            &mut leases,
            [18, 19, 20, 21, 22, 23],
            60,
            30,
            Some(address(192, 0, 2, 11)),
        ),
        Some(address(192, 0, 2, 11))
    );
    assert_eq!(
        pool.allocate_requested(
            &mut leases,
            [24, 25, 26, 27, 28, 29],
            60,
            30,
            Some(address(192, 0, 2, 1)),
        ),
        None
    );
}

#[test]
fn loopback_server_turns_discover_into_offer() {
    let config = DhcpConfig { listen: "127.0.0.1:0".into(), ..Default::default() };
    let mut server = Responder::new(&config).expect("server");
    let peer = socket("127.0.0.1:40068");
    let reply = server.respond(&discover(), peer, 10).expect("offer");
    assert_eq!(reply.bytes[0], 2);
    assert_eq!(&reply.bytes[16..20], &[192, 0, 2, 100]);
    assert_eq!(&reply.bytes[240..243], &[OPTION_MESSAGE_TYPE, 1, 2]);
    assert!(reply.bytes.len() < MAX_DHCP_PACKET);
    assert_eq!(reply.destination, peer);
}

// ---- the edge ------------------------------------------------------------------------

#[test]
fn edge_path_preserves_borrowed_parse_and_policy_action() {
    let packet = [
        0x12, 0x34, 0x01, 0x00, 0x00, 0x01, 0x00, 0x00, 0x00, 0x00, 0x00, 0x00, 0x03, b'w', b'w',
        b'w', 0x07, b'e', b'x', b'a', b'm', b'p', b'l', b'e', 0x00, 0x00, 0x01, 0x00, 0x01,
    ];
    let rules = [rule(7, "www.example", Action::Nxdomain)];
    let policy = EdgePolicy::new(&rules).expect("valid edge policy");
    assert_eq!(
        policy.decide(&packet, None).expect("valid edge decision"),
        Some(Decision { rule_id: 7, action: Action::Nxdomain })
    );
    assert_eq!(
        decide(&packet, &rules, None).expect("valid convenience decision"),
        Some(Decision { rule_id: 7, action: Action::Nxdomain })
    );
}

// ---- states of a message -------------------------------------------------------------

fn root_query() -> QueryView<'static> {
    QueryView::parse(&[0, 1, 1, 0, 0, 1, 0, 0, 0, 0, 0, 0, 0, 0, 0, 1, 0, 1]).expect("root query")
}

#[test]
fn valid_udp_path_reaches_response() {
    let state = DecisionState::received(b"partial")
        .transition(Event::BeginParse)
        .expect("begin")
        .transition(Event::Parsed(root_query()))
        .expect("parse")
        .transition(Event::Matched(Action::Nxdomain))
        .expect("match")
        .transition(Event::Respond(b"dns response"))
        .expect("response");
    assert!(matches!(state, DecisionState::Responding { .. }));
}

#[test]
fn partial_input_retries_and_tcp_accepts_next_message() {
    let state = DecisionState::received(b"one")
        .transition(Event::BeginParse)
        .expect("begin")
        .transition(Event::NeedMore(b"one plus more"))
        .expect("retry");
    assert!(matches!(state, DecisionState::Parsing { .. }));
    let next = DecisionState::Responding { query: root_query(), output: b"reply" }
        .transition(Event::Sent)
        .expect("response sent")
        .transition(Event::NextMessage(b"second message"))
        .expect("next message");
    assert!(matches!(next, DecisionState::Received { .. }));
}

#[test]
fn sent_is_distinct_from_waiting_for_the_next_message() {
    let sent = DecisionState::Responding { query: root_query(), output: b"reply" }
        .transition(Event::Sent)
        .expect("response sent");
    assert!(matches!(sent, DecisionState::Sent { .. }));
    assert!(matches!(sent.transition(Event::Sent), Err(TransitionError::Illegal { .. })));
}

#[test]
fn malformed_policy_drop_and_peer_close_are_explicit() {
    let dropped = DecisionState::received(b"bad")
        .transition(Event::BeginParse)
        .expect("begin")
        .transition(Event::Drop(DropReason::Malformed))
        .expect("drop");
    let closed = dropped.transition(Event::PeerClosed).expect("close after drop");
    assert_eq!(closed, DecisionState::Closed { reason: CloseReason::Peer });

    let policy_drop = DecisionState::Parsed { query: root_query() }
        .transition(Event::Drop(DropReason::PolicyFailure))
        .expect("policy drop");
    assert!(matches!(policy_drop, DecisionState::Dropped { .. }));
}

#[test]
fn forwarding_and_empty_response_error_are_covered() {
    let state = DecisionState::Parsed { query: root_query() }
        .transition(Event::Matched(Action::Forward))
        .expect("match")
        .transition(Event::Forward)
        .expect("forward")
        .transition(Event::Forwarded(b"upstream reply"))
        .expect("upstream");
    assert!(matches!(state, DecisionState::Responding { .. }));
    assert_eq!(
        DecisionState::Matched { query: root_query(), disposition: Action::Sink }
            .transition(Event::Respond(b"")),
        Err(TransitionError::OutputTooSmall)
    );
}

#[test]
fn illegal_transition_is_named_and_closed_is_terminal() {
    let error = DecisionState::received(b"input").transition(Event::Respond(b"reply"));
    assert_eq!(
        error,
        Err(TransitionError::Illegal { state: "Received", event: "Respond" })
    );
    let closed = DecisionState::Closed { reason: CloseReason::Protocol };
    assert!(matches!(
        closed.transition(Event::BeginParse),
        Err(TransitionError::Illegal { state: "Closed", .. })
    ));
}

// ---- capture -------------------------------------------------------------------------

#[derive(Default)]
struct FakeBackend {
    calls: Vec<&'static str>,
    fail_install: bool,
    fail_verify: bool,
}

impl RuleBackend for FakeBackend {
    type Plan = NftRulePlan;

    fn install(&mut self, _plan: &Self::Plan) -> Result<(), String> {
        self.calls.push("install");
        if self.fail_install {
            return Err("partial install".into());
        }
        Ok(())
    }

    fn verify(&mut self, _plan: &Self::Plan) -> Result<(), String> {
        self.calls.push("verify");
        if self.fail_verify {
            Err("not present".into())
        } else {
            Ok(())
        }
    }

    fn remove(&mut self, _plan: &Self::Plan) -> Result<(), String> {
        self.calls.push("remove");
        Ok(())
    }
}

#[test]
fn dry_run_is_stable_and_owned() {
    let plan = NftRulePlan::new("capture", 5353, 42).unwrap();
    assert_eq!(
        plan.render(),
        "table inet blackhole {\n  chain capture {\n    type nat hook prerouting priority dstnat; policy accept;\n    tcp dport 5353 meta mark set 42 redirect to :5353\n    udp dport 5353 meta mark set 42 redirect to :5353\n  }\n}\n"
    );
}

#[test]
fn dns_capture_can_match_port_53_and_redirect_to_the_listener() {
    let plan = NftRulePlan::for_ports("capture", 53, 5353, 42).unwrap();
    let rendered = plan.render();
    assert!(rendered.contains("type nat hook prerouting priority dstnat"));
    assert!(rendered.contains("tcp dport 53"));
    assert!(rendered.contains("udp dport 53"));
    assert!(rendered.contains("redirect to :5353"));
}

#[test]
fn capture_plan_can_use_an_isolated_table_for_smoke_tests() {
    let plan = NftRulePlan::for_table("blackhole_ci", "capture_ci", 53, 5353, 42).unwrap();
    assert!(plan.render().starts_with("table inet blackhole_ci {"));
    assert_eq!(plan.ownership().table, "blackhole_ci");
}

#[test]
fn capture_plan_rejects_unquoted_nft_identifiers() {
    for (table, chain) in [("blackhole-ci", "capture"), ("blackhole", "capture/ci")] {
        assert_eq!(
            NftRulePlan::for_table(table, chain, 53, 5353, 42),
            Err(CaptureError::Bound(if table.contains('-') { "table" } else { "chain" }))
        );
    }
}

#[test]
fn context_rejects_unbounded_interface_names() {
    let context = CaptureContext {
        original_destination: socket("192.0.2.1:443"),
        client: socket("198.51.100.1:1234"),
        interface: "this-interface-is-too-long".into(),
        mark: 42,
        reply_route: ReplyRoute::MarkedRoute,
    };
    assert_eq!(context.validate(), Err(CaptureError::Bound("interface")));
}

#[test]
fn verification_failure_rolls_back_only_the_planned_rules() {
    let plan = NftRulePlan::new("capture", 5353, 42).unwrap();
    let backend = FakeBackend { fail_verify: true, ..Default::default() };
    let mut controller = CaptureController::new(backend);
    assert!(matches!(controller.install(&plan), Err(CaptureError::Transaction { .. })));
    assert_eq!(controller.status(), InstallState::Failed);
    assert_eq!(controller.backend.calls, vec!["install", "verify", "remove"]);
}

#[test]
fn install_failure_attempts_rollback_of_partial_rules() {
    let plan = NftRulePlan::new("capture", 5353, 42).unwrap();
    let backend = FakeBackend { fail_install: true, ..Default::default() };
    let mut controller = CaptureController::new(backend);
    assert!(matches!(controller.install(&plan), Err(CaptureError::Transaction { .. })));
    assert_eq!(controller.status(), InstallState::Failed);
    assert_eq!(controller.backend.calls, vec!["install", "remove"]);
}

#[test]
fn successful_install_and_cleanup_are_idempotent_at_the_boundary() {
    let plan = NftRulePlan::new("capture", 5353, 42).unwrap();
    let mut controller = CaptureController::new(FakeBackend::default());
    controller.install(&plan).unwrap();
    controller.install(&plan).unwrap();
    assert_eq!(controller.status(), InstallState::Installed);
    controller.cleanup(&plan).unwrap();
    controller.cleanup(&plan).unwrap();
    assert_eq!(controller.status(), InstallState::Uninstalled);
}

#[test]
fn file_ownership_store_round_trips_and_ignores_corruption() {
    let ownership = NftRulePlan::new("capture", 5353, 42).unwrap().ownership();
    let journal = FileOwnershipStore::encode(&ownership);
    assert_eq!(FileOwnershipStore::decode(&journal), Some(ownership));
    assert_eq!(FileOwnershipStore::decode("partial\nrecord\n"), None);
}

#[test]
fn file_ownership_store_rejects_unusable_records() {
    for record in [
        "blackhole\ncapture\n0\n5353\n42\n",
        "blackhole\ncapture\n53\n0\n42\n",
        "blackhole\nthis-chain-name-is-way-too-long-for-recovery\n53\n5353\n42\n",
        "blackhole\ncapture\n53\n5353\n42\ntrailing\n",
    ] {
        assert_eq!(FileOwnershipStore::decode(record), None);
    }
}

/// A journal that outlives its controller.
#[derive(Default)]
struct JournalStore {
    journal: Option<String>,
}

impl OwnershipStore for JournalStore {
    fn load(&self) -> Result<Option<CaptureOwnership>, String> {
        Ok(self.journal.as_deref().and_then(FileOwnershipStore::decode))
    }

    fn save(&mut self, ownership: &CaptureOwnership) -> Result<(), String> {
        self.journal = Some(FileOwnershipStore::encode(ownership));
        Ok(())
    }

    fn clear(&mut self) -> Result<(), String> {
        self.journal = None;
        Ok(())
    }
}

#[test]
fn recovery_verifies_only_an_exact_owned_plan() {
    let plan = NftRulePlan::new("capture", 53, 5353).unwrap();
    let mut first =
        CaptureController::with_store(FakeBackend::default(), JournalStore::default());
    first.install(&plan).expect("install");

    let kept = JournalStore { journal: first.store.journal };
    let mut recovered = CaptureController::with_store(FakeBackend::default(), kept);
    assert_eq!(recovered.recover(&plan).unwrap(), InstallState::Installed);
    recovered.cleanup(&plan).expect("owned cleanup");
    assert_eq!(recovered.status(), InstallState::Uninstalled);
    assert!(recovered.store.journal.is_none());
}

#[test]
fn another_plan_is_neither_recovered_nor_cleaned_up() {
    let plan = NftRulePlan::new("capture", 53, 5353).unwrap();
    let other = NftRulePlan::new("other", 53, 5353).unwrap();
    let store = MemoryOwnershipStore { ownership: Some(other.ownership()) };
    let mut controller = CaptureController::with_store(FakeBackend::default(), store);
    assert_eq!(controller.recover(&plan), Ok(InstallState::Uninstalled));
    assert!(controller.backend.calls.is_empty());
    assert_eq!(controller.recover(&other), Ok(InstallState::Installed));
    assert!(matches!(controller.cleanup(&plan), Err(CaptureError::OwnershipMismatch)));
    assert_eq!(controller.backend.calls, vec!["verify"]);
}

// ---- the listener --------------------------------------------------------------------

#[test]
fn capture_destination_is_carried_as_request_metadata_for_both_transports() {
    let asked = DnsQuery {
        id: 7,
        recursion_desired: true,
        name: "example.com.".into(),
        qtype: 1,
        qclass: 1,
    };
    for tcp in [false, true] {
        let request = request(asked.clone(), tcp, None, Some("192.0.2.53:53"));
        let carried: Vec<&str> = request
            .metadata
            .iter()
            .filter(|(key, _)| key == ORIGINAL_DESTINATION_METADATA)
            .map(|(_, value)| value.as_str())
            .collect();
        assert_eq!(carried, ["192.0.2.53:53"]);
    }
}

/// Takes one message from its bytes to the bytes of the reply.
fn drive(policy: &mut Policy, state: DecisionState<'_>, wire: &[u8], client: Option<IpAddr>) -> Option<Vec<u8>> {
    let Intake { step, .. } = policy.take_in(state, wire, client, SECOND, 1_000);
    let IntakeStep::Serve { query, action, state } = step else {
        return None;
    };
    let entry = policy.enter(true, client, &query, SECOND);
    assert!(entry.turned_away.is_none());
    let next = match policy.answer_step(&query, Some(action)) {
        Next::Acquire => policy.slot_asked(&query, action, UpstreamSlot::Unconfigured, 1_000).next,
        other => other,
    };
    if let Some(permit) = entry.permit {
        policy.leave(permit);
    }
    let Next::Reply { answer, .. } = next else {
        panic!("expected a reply");
    };
    let reply = policy.send_out(wire.len(), &query, &answer, client, SECOND).reply?;
    let responding = answered(state, action, &reply).expect("answered");
    assert!(matches!(responding, DecisionState::Responding { .. }));
    Some(reply)
}

#[test]
fn universal_listener_drives_udp_and_tcp_adapters_into_the_fsm() {
    let mut policy = start(Config::default());
    let client = IpAddr::parse("192.0.2.10");
    let wire = packet(0x1234, "example.com.");
    let reply = drive(&mut policy, DecisionState::received(&wire), &wire, client).expect("reply");
    assert_eq!(u16::from_be_bytes([reply[0], reply[1]]), 0x1234);

    let mut framed = Vec::with_capacity(wire.len() + 2);
    framed.extend_from_slice(&(wire.len() as u16).to_be_bytes());
    framed.extend_from_slice(&wire);
    let mut frames = TcpFrames::new();
    assert!(matches!(frames.absorb(&framed[..5]), Absorbed::More));
    assert!(matches!(frames.absorb(&framed[5..]), Absorbed::Ready));
    let frame = frames.take_frame();
    assert_eq!(frame, wire);
    let state = next_message(None, &frame).expect("first message");
    let reply = drive(&mut policy, state, &frame, client).expect("reply");
    let sent = frame_reply(&reply).expect("framed reply");
    assert_eq!(u16::from_be_bytes([sent[2], sent[3]]), 0x1234);
}

#[test]
fn udp_oversized_datagram_is_dropped_before_parsing() {
    assert_eq!(datagram_fault(MAX_QUERY_BYTES), None);
    assert_eq!(datagram_fault(MAX_QUERY_BYTES + 1), Some("query_oversized"));
    let mut policy = start(Config::default());
    let input = vec![0u8; MAX_QUERY_BYTES + 1];
    let intake = policy.take_in(DecisionState::received(&input), &input, None, SECOND, 1_000);
    assert!(matches!(intake.step, IntakeStep::Dropped));
}

#[test]
fn listener_records_the_parser_failure_cause() {
    let mut policy = start(Config::default());
    let intake = policy.take_in(DecisionState::received(&[0; 11]), &[0; 11], None, SECOND, 1_000);
    assert!(matches!(intake.step, IntakeStep::Dropped));
    assert_eq!(intake.causes, ["query_wire_short"]);
}

#[test]
fn listener_preserves_drop_action_in_aggregate_stats() {
    let mut config = Config::default();
    config.policy.rules = vec![rule(1, "drop.example", Action::Drop)];
    let mut policy = start(config);
    let wire = packet(1, "drop.example.");
    let intake = policy.take_in(DecisionState::received(&wire), &wire, None, SECOND, 1_000);
    assert!(matches!(intake.step, IntakeStep::Dropped));
    let stats = policy.stats();
    assert_eq!(stats.counts[blackhole::decisions::action_index(Action::Drop)], 1);
    assert_eq!(stats.counts[blackhole::decisions::action_index(Action::Ignore)], 0);
}

#[test]
fn identified_parser_failures_feed_the_bounded_abuse_breaker() {
    let mut config = Config::default();
    config.admission.max_client_abuse_violations = 2;
    let mut policy = start(config);
    let client = IpAddr::parse("192.0.2.10");
    let mut causes = Vec::new();
    for _ in 0..2 {
        let intake = policy.take_in(DecisionState::received(&[0; 11]), &[0; 11], client, 0, 1_000);
        assert!(matches!(intake.step, IntakeStep::Dropped));
        causes.extend(intake.causes);
    }
    assert!(causes.contains(&"client_abuse_breaker_open"));
}
