//! The configuration as plain values, with the defaults of every part.
use vstd::prelude::*;

use crate::items::{item_views, Item};
use crate::lists::{copy_list, copy_option, copy_texts, same_addresses, same_option, same_texts,
    same_u16s, same_u32s, text_of};
use crate::names::{normal, normalize_chars};
use crate::net::IpAddr;
use crate::policy::{Action, RuleConfig};
use crate::text::{lower, same, same_str, texts, to_chars, to_lower, trim, trimmed};

verus! {

/// The whole configuration.
#[derive(Clone, Debug, PartialEq, Eq)]
pub struct Config {
    /// How often the policy configuration is read again, in seconds; zero for never.
    pub reload_interval_secs: u64,
    pub server: ServerConfig,
    pub admin: AdminConfig,
    pub policy: PolicyConfig,
    pub honeypot: HoneypotConfig,
    pub upstream: Option<UpstreamConfig>,
    pub cache: CacheConfig,
    pub admission: AdmissionConfig,
    pub security: SecurityConfig,
    pub country_policy: CountryPolicyConfig,
    pub privacy: PrivacyConfig,
    pub capture: CaptureConfig,
    pub dhcp: DhcpConfig,
}

impl Default for Config {
    fn default() -> (r: Config)
        ensures
            r.reload_interval_secs == 0,
            r.server.listen@ == "127.0.0.1:5353"@,
            r.admin.listen is None && r.admin.token is None,
            r.policy == PolicyConfig::initial(r.policy),
            r.policy.is_empty(),
            r.honeypot == HoneypotConfig::initial(),
            r.upstream is None,
            r.cache == CacheConfig::initial(),
            r.admission.is_initial(),
            r.security == (SecurityConfig { reject_private_upstream_addresses: true }),
            r.country_policy.is_initial(),
            r.privacy.is_initial(),
            r.capture.is_initial(),
            r.dhcp.is_initial(),
    {
        Config {
            reload_interval_secs: 0,
            server: ServerConfig::default(),
            admin: AdminConfig::default(),
            policy: PolicyConfig::default(),
            honeypot: HoneypotConfig::default(),
            upstream: None,
            cache: CacheConfig::default(),
            admission: AdmissionConfig::default(),
            security: SecurityConfig::default(),
            country_policy: CountryPolicyConfig::default(),
            privacy: PrivacyConfig::default(),
            capture: CaptureConfig::default(),
            dhcp: DhcpConfig::default(),
        }
    }
}

#[derive(Clone, Copy, Debug, PartialEq, Eq, Structural)]
pub struct CacheConfig {
    pub max_entries: usize,
    pub max_ttl_secs: u64,
    pub stale_ttl_secs: u64,
    pub negative_ttl_secs: u64,
}

impl CacheConfig {
    pub open spec fn initial() -> CacheConfig {
        CacheConfig {
            max_entries: 1024,
            max_ttl_secs: 86_400,
            stale_ttl_secs: 30,
            negative_ttl_secs: 30,
        }
    }
}

impl Default for CacheConfig {
    fn default() -> (r: CacheConfig)
        ensures
            r == CacheConfig::initial(),
    {
        CacheConfig {
            max_entries: 1024,
            max_ttl_secs: 86_400,
            stale_ttl_secs: 30,
            negative_ttl_secs: 30,
        }
    }
}

#[derive(Clone, Copy, Debug, PartialEq, Eq, Structural)]
pub struct DdosConfig {
    /// Keep abuse incidents in the durable recording.
    pub persist_incidents: bool,
    /// Violations of all callers together before every caller is shed; zero for no limit.
    pub max_global_abuse_violations: usize,
    pub global_abuse_window_secs: u64,
    pub global_abuse_cooldown_secs: u64,
}

impl DdosConfig {
    pub open spec fn initial() -> DdosConfig {
        DdosConfig {
            persist_incidents: false,
            max_global_abuse_violations: 0,
            global_abuse_window_secs: 10,
            global_abuse_cooldown_secs: 30,
        }
    }
}

impl Default for DdosConfig {
    fn default() -> (r: DdosConfig)
        ensures
            r == DdosConfig::initial(),
    {
        DdosConfig {
            persist_incidents: false,
            max_global_abuse_violations: 0,
            global_abuse_window_secs: 10,
            global_abuse_cooldown_secs: 30,
        }
    }
}

/// The limits that every request passes.
#[derive(Clone, Debug, PartialEq, Eq)]
pub struct AdmissionConfig {
    pub deny_client_cidrs: Vec<String>,
    pub max_name_bytes: usize,
    pub reject_any: bool,
    pub max_response_records: usize,
    pub max_response_bytes: usize,
    pub max_response_amplification: usize,
    pub max_inflight_requests: usize,
    pub max_queries_per_second: usize,
    pub max_inflight_per_client: usize,
    pub max_queries_per_client_per_second: usize,
    pub max_response_bytes_per_client_per_second: usize,
    pub max_response_bytes_per_network_per_second: usize,
    pub max_response_bytes_per_second: usize,
    pub max_client_abuse_violations: usize,
    pub client_abuse_window_secs: u64,
    pub client_abuse_cooldown_secs: u64,
    pub max_network_abuse_violations: usize,
    pub network_abuse_window_secs: u64,
    pub network_abuse_cooldown_secs: u64,
    pub network_abuse_ipv4_prefix: u8,
    pub network_abuse_ipv6_prefix: u8,
    pub ddos: DdosConfig,
}

/// The value of the limits.
pub struct AdmissionView {
    pub deny_client_cidrs: Seq<Seq<char>>,
    pub max_name_bytes: usize,
    pub reject_any: bool,
    pub max_response_records: usize,
    pub max_response_bytes: usize,
    pub max_response_amplification: usize,
    pub max_inflight_requests: usize,
    pub max_queries_per_second: usize,
    pub max_inflight_per_client: usize,
    pub max_queries_per_client_per_second: usize,
    pub max_response_bytes_per_client_per_second: usize,
    pub max_response_bytes_per_network_per_second: usize,
    pub max_response_bytes_per_second: usize,
    pub max_client_abuse_violations: usize,
    pub client_abuse_window_secs: u64,
    pub client_abuse_cooldown_secs: u64,
    pub max_network_abuse_violations: usize,
    pub network_abuse_window_secs: u64,
    pub network_abuse_cooldown_secs: u64,
    pub network_abuse_ipv4_prefix: u8,
    pub network_abuse_ipv6_prefix: u8,
    pub ddos: DdosConfig,
}

impl View for AdmissionConfig {
    type V = AdmissionView;

    open spec fn view(&self) -> AdmissionView {
        AdmissionView {
            deny_client_cidrs: texts(self.deny_client_cidrs@),
            max_name_bytes: self.max_name_bytes,
            reject_any: self.reject_any,
            max_response_records: self.max_response_records,
            max_response_bytes: self.max_response_bytes,
            max_response_amplification: self.max_response_amplification,
            max_inflight_requests: self.max_inflight_requests,
            max_queries_per_second: self.max_queries_per_second,
            max_inflight_per_client: self.max_inflight_per_client,
            max_queries_per_client_per_second: self.max_queries_per_client_per_second,
            max_response_bytes_per_client_per_second: self.max_response_bytes_per_client_per_second,
            max_response_bytes_per_network_per_second:
                self.max_response_bytes_per_network_per_second,
            max_response_bytes_per_second: self.max_response_bytes_per_second,
            max_client_abuse_violations: self.max_client_abuse_violations,
            client_abuse_window_secs: self.client_abuse_window_secs,
            client_abuse_cooldown_secs: self.client_abuse_cooldown_secs,
            max_network_abuse_violations: self.max_network_abuse_violations,
            network_abuse_window_secs: self.network_abuse_window_secs,
            network_abuse_cooldown_secs: self.network_abuse_cooldown_secs,
            network_abuse_ipv4_prefix: self.network_abuse_ipv4_prefix,
            network_abuse_ipv6_prefix: self.network_abuse_ipv6_prefix,
            ddos: self.ddos,
        }
    }
}

impl AdmissionConfig {
    pub open spec fn is_initial(&self) -> bool {
        self@ == (AdmissionView {
            deny_client_cidrs: Seq::empty(),
            max_name_bytes: 253,
            reject_any: true,
            max_response_records: 64,
            max_response_bytes: 4096,
            max_response_amplification: 4,
            max_inflight_requests: 1024,
            max_queries_per_second: 10_000,
            max_inflight_per_client: 64,
            max_queries_per_client_per_second: 100,
            max_response_bytes_per_client_per_second: 1_048_576,
            max_response_bytes_per_network_per_second: 4_194_304,
            max_response_bytes_per_second: 16_777_216,
            max_client_abuse_violations: 8,
            client_abuse_window_secs: 10,
            client_abuse_cooldown_secs: 30,
            max_network_abuse_violations: 32,
            network_abuse_window_secs: 10,
            network_abuse_cooldown_secs: 30,
            network_abuse_ipv4_prefix: 24,
            network_abuse_ipv6_prefix: 64,
            ddos: DdosConfig::initial(),
        })
    }

    /// Limits of the same value.
    pub fn copied(&self) -> (r: AdmissionConfig)
        ensures
            r@ == self@,
    {
        AdmissionConfig {
            deny_client_cidrs: copy_texts(&self.deny_client_cidrs),
            max_name_bytes: self.max_name_bytes,
            reject_any: self.reject_any,
            max_response_records: self.max_response_records,
            max_response_bytes: self.max_response_bytes,
            max_response_amplification: self.max_response_amplification,
            max_inflight_requests: self.max_inflight_requests,
            max_queries_per_second: self.max_queries_per_second,
            max_inflight_per_client: self.max_inflight_per_client,
            max_queries_per_client_per_second: self.max_queries_per_client_per_second,
            max_response_bytes_per_client_per_second: self.max_response_bytes_per_client_per_second,
            max_response_bytes_per_network_per_second:
                self.max_response_bytes_per_network_per_second,
            max_response_bytes_per_second: self.max_response_bytes_per_second,
            max_client_abuse_violations: self.max_client_abuse_violations,
            client_abuse_window_secs: self.client_abuse_window_secs,
            client_abuse_cooldown_secs: self.client_abuse_cooldown_secs,
            max_network_abuse_violations: self.max_network_abuse_violations,
            network_abuse_window_secs: self.network_abuse_window_secs,
            network_abuse_cooldown_secs: self.network_abuse_cooldown_secs,
            network_abuse_ipv4_prefix: self.network_abuse_ipv4_prefix,
            network_abuse_ipv6_prefix: self.network_abuse_ipv6_prefix,
            ddos: self.ddos,
        }
    }

    /// Whether two sets of limits have the same value.
    pub fn same_as(&self, other: &AdmissionConfig) -> (r: bool)
        ensures
            r == (self@ == other@),
    {
        same_texts(&self.deny_client_cidrs, &other.deny_client_cidrs) && self.max_name_bytes
            == other.max_name_bytes && self.reject_any == other.reject_any
            && self.max_response_records == other.max_response_records && self.max_response_bytes
            == other.max_response_bytes && self.max_response_amplification
            == other.max_response_amplification && self.max_inflight_requests
            == other.max_inflight_requests && self.max_queries_per_second
            == other.max_queries_per_second && self.max_inflight_per_client
            == other.max_inflight_per_client && self.max_queries_per_client_per_second
            == other.max_queries_per_client_per_second
            && self.max_response_bytes_per_client_per_second
            == other.max_response_bytes_per_client_per_second
            && self.max_response_bytes_per_network_per_second
            == other.max_response_bytes_per_network_per_second && self.max_response_bytes_per_second
            == other.max_response_bytes_per_second && self.max_client_abuse_violations
            == other.max_client_abuse_violations && self.client_abuse_window_secs
            == other.client_abuse_window_secs && self.client_abuse_cooldown_secs
            == other.client_abuse_cooldown_secs && self.max_network_abuse_violations
            == other.max_network_abuse_violations && self.network_abuse_window_secs
            == other.network_abuse_window_secs && self.network_abuse_cooldown_secs
            == other.network_abuse_cooldown_secs && self.network_abuse_ipv4_prefix
            == other.network_abuse_ipv4_prefix && self.network_abuse_ipv6_prefix
            == other.network_abuse_ipv6_prefix && self.ddos == other.ddos
    }
}

impl Default for AdmissionConfig {
    fn default() -> (r: AdmissionConfig)
        ensures
            r.is_initial(),
    {
        let deny_client_cidrs: Vec<String> = Vec::new();
        assert(texts(deny_client_cidrs@) =~= Seq::<Seq<char>>::empty());
        AdmissionConfig {
            deny_client_cidrs,
            max_name_bytes: 253,
            reject_any: true,
            max_response_records: 64,
            max_response_bytes: 4096,
            max_response_amplification: 4,
            max_inflight_requests: 1024,
            max_queries_per_second: 10_000,
            max_inflight_per_client: 64,
            max_queries_per_client_per_second: 100,
            max_response_bytes_per_client_per_second: 1_048_576,
            max_response_bytes_per_network_per_second: 4_194_304,
            max_response_bytes_per_second: 16_777_216,
            max_client_abuse_violations: 8,
            client_abuse_window_secs: 10,
            client_abuse_cooldown_secs: 30,
            max_network_abuse_violations: 32,
            network_abuse_window_secs: 10,
            network_abuse_cooldown_secs: 30,
            network_abuse_ipv4_prefix: 24,
            network_abuse_ipv6_prefix: 64,
            ddos: DdosConfig::default(),
        }
    }
}

/// Rules on where clients come from.
#[derive(Clone, Debug, PartialEq, Eq)]
pub struct CountryPolicyConfig {
    pub map_path: Option<String>,
    pub expected_sha256: Option<String>,
    pub max_age_secs: Option<u64>,
    pub reload_interval_secs: u64,
    pub deny: Vec<String>,
    pub observe: Vec<String>,
    pub deny_regions: Vec<String>,
    pub observe_regions: Vec<String>,
    pub deny_asns: Vec<u32>,
    pub observe_asns: Vec<u32>,
}

/// The value of the country rules.
pub struct CountryView {
    pub map_path: Option<Seq<char>>,
    pub expected_sha256: Option<Seq<char>>,
    pub max_age_secs: Option<u64>,
    pub reload_interval_secs: u64,
    pub deny: Seq<Seq<char>>,
    pub observe: Seq<Seq<char>>,
    pub deny_regions: Seq<Seq<char>>,
    pub observe_regions: Seq<Seq<char>>,
    pub deny_asns: Seq<u32>,
    pub observe_asns: Seq<u32>,
}

impl View for CountryPolicyConfig {
    type V = CountryView;

    open spec fn view(&self) -> CountryView {
        CountryView {
            map_path: text_of(self.map_path),
            expected_sha256: text_of(self.expected_sha256),
            max_age_secs: self.max_age_secs,
            reload_interval_secs: self.reload_interval_secs,
            deny: texts(self.deny@),
            observe: texts(self.observe@),
            deny_regions: texts(self.deny_regions@),
            observe_regions: texts(self.observe_regions@),
            deny_asns: self.deny_asns@,
            observe_asns: self.observe_asns@,
        }
    }
}

impl CountryPolicyConfig {
    pub open spec fn is_initial(&self) -> bool {
        self@ == (CountryView {
            map_path: None,
            expected_sha256: None,
            max_age_secs: None,
            reload_interval_secs: 0,
            deny: Seq::empty(),
            observe: Seq::empty(),
            deny_regions: Seq::empty(),
            observe_regions: Seq::empty(),
            deny_asns: Seq::empty(),
            observe_asns: Seq::empty(),
        })
    }

    pub fn copied(&self) -> (r: CountryPolicyConfig)
        ensures
            r@ == self@,
    {
        CountryPolicyConfig {
            map_path: copy_option(&self.map_path),
            expected_sha256: copy_option(&self.expected_sha256),
            max_age_secs: self.max_age_secs,
            reload_interval_secs: self.reload_interval_secs,
            deny: copy_texts(&self.deny),
            observe: copy_texts(&self.observe),
            deny_regions: copy_texts(&self.deny_regions),
            observe_regions: copy_texts(&self.observe_regions),
            deny_asns: copy_list(&self.deny_asns),
            observe_asns: copy_list(&self.observe_asns),
        }
    }

    pub fn same_as(&self, other: &CountryPolicyConfig) -> (r: bool)
        ensures
            r == (self@ == other@),
    {
        same_option(&self.map_path, &other.map_path) && same_option(
            &self.expected_sha256,
            &other.expected_sha256,
        ) && self.max_age_secs == other.max_age_secs && self.reload_interval_secs
            == other.reload_interval_secs && same_texts(&self.deny, &other.deny) && same_texts(
            &self.observe,
            &other.observe,
        ) && same_texts(&self.deny_regions, &other.deny_regions) && same_texts(
            &self.observe_regions,
            &other.observe_regions,
        ) && same_u32s(&self.deny_asns, &other.deny_asns) && same_u32s(
            &self.observe_asns,
            &other.observe_asns,
        )
    }
}

impl Default for CountryPolicyConfig {
    fn default() -> (r: CountryPolicyConfig)
        ensures
            r.is_initial(),
    {
        let r = CountryPolicyConfig {
            map_path: None,
            expected_sha256: None,
            max_age_secs: None,
            reload_interval_secs: 0,
            deny: Vec::new(),
            observe: Vec::new(),
            deny_regions: Vec::new(),
            observe_regions: Vec::new(),
            deny_asns: Vec::new(),
            observe_asns: Vec::new(),
        };
        assert(r@.deny =~= Seq::<Seq<char>>::empty());
        assert(r@.observe =~= Seq::<Seq<char>>::empty());
        assert(r@.deny_regions =~= Seq::<Seq<char>>::empty());
        assert(r@.observe_regions =~= Seq::<Seq<char>>::empty());
        r
    }
}

#[derive(Clone, Copy, Debug, PartialEq, Eq, Structural)]
pub struct SecurityConfig {
    /// Refuse upstream answers that point into private networks.
    pub reject_private_upstream_addresses: bool,
}

impl Default for SecurityConfig {
    fn default() -> (r: SecurityConfig)
        ensures
            r == (SecurityConfig { reject_private_upstream_addresses: true }),
    {
        SecurityConfig { reject_private_upstream_addresses: true }
    }
}

/// What a recorded decision tells beside its action.
#[derive(Clone, Copy, Debug, PartialEq, Eq, Structural)]
pub enum QueryRecordingRedaction {
    Metadata,
    ActionOnly,
}

impl Default for QueryRecordingRedaction {
    fn default() -> (r: QueryRecordingRedaction)
        ensures
            r == QueryRecordingRedaction::Metadata,
    {
        QueryRecordingRedaction::Metadata
    }
}

#[derive(Clone, Debug, PartialEq, Eq)]
pub struct PrivacyConfig {
    /// Keep decisions in a bounded log in memory.
    pub query_log_enabled: bool,
    pub query_log_max_entries: usize,
    pub query_log_retention_secs: u64,
    /// Where decisions are recorded durably, if anywhere.
    pub query_recording_path: Option<String>,
    pub query_recording_max_bytes: u64,
    pub query_recording_rotation_enabled: bool,
    pub query_recording_max_files: usize,
    pub query_recording_redaction: QueryRecordingRedaction,
}

impl PrivacyConfig {
    pub open spec fn is_initial(&self) -> bool {
        &&& !self.query_log_enabled
        &&& self.query_log_max_entries == 1024
        &&& self.query_log_retention_secs == 86_400
        &&& self.query_recording_path is None
        &&& self.query_recording_max_bytes == 67_108_864
        &&& !self.query_recording_rotation_enabled
        &&& self.query_recording_max_files == 3
        &&& self.query_recording_redaction == QueryRecordingRedaction::Metadata
    }

    /// The parts that cannot change while running have the same value.
    pub open spec fn same_startup(&self, other: &PrivacyConfig) -> bool {
        &&& self.query_log_enabled == other.query_log_enabled
        &&& self.query_log_max_entries == other.query_log_max_entries
        &&& self.query_log_retention_secs == other.query_log_retention_secs
        &&& text_of(self.query_recording_path) == text_of(other.query_recording_path)
        &&& self.query_recording_max_bytes == other.query_recording_max_bytes
        &&& self.query_recording_rotation_enabled == other.query_recording_rotation_enabled
        &&& self.query_recording_max_files == other.query_recording_max_files
    }

    pub fn has_same_startup(&self, other: &PrivacyConfig) -> (r: bool)
        ensures
            r == self.same_startup(other),
    {
        self.query_log_enabled == other.query_log_enabled && self.query_log_max_entries
            == other.query_log_max_entries && self.query_log_retention_secs
            == other.query_log_retention_secs && same_option(
            &self.query_recording_path,
            &other.query_recording_path,
        ) && self.query_recording_max_bytes == other.query_recording_max_bytes
            && self.query_recording_rotation_enabled == other.query_recording_rotation_enabled
            && self.query_recording_max_files == other.query_recording_max_files
    }
}

impl Default for PrivacyConfig {
    fn default() -> (r: PrivacyConfig)
        ensures
            r.is_initial(),
    {
        PrivacyConfig {
            query_log_enabled: false,
            query_log_max_entries: 1024,
            query_log_retention_secs: 86_400,
            query_recording_path: None,
            query_recording_max_bytes: 67_108_864,
            query_recording_rotation_enabled: false,
            query_recording_max_files: 3,
            query_recording_redaction: QueryRecordingRedaction::default(),
        }
    }
}

#[derive(Clone, Copy, Debug, PartialEq, Eq, Structural)]
pub enum UpstreamTransport {
    Udp,
    Tcp,
    Tls,
    Doh,
    Doq,
}

impl Default for UpstreamTransport {
    fn default() -> (r: UpstreamTransport)
        ensures
            r == UpstreamTransport::Udp,
    {
        UpstreamTransport::Udp
    }
}

/// The resolver that queries are forwarded to.
#[derive(Clone, Debug, PartialEq, Eq)]
pub struct UpstreamConfig {
    pub resolver_ip: String,
    pub port: u16,
    pub query_timeout_ms: u64,
    pub max_attempts: u32,
    pub max_outstanding: usize,
    pub breaker_failures: u32,
    pub breaker_cooldown_secs: u64,
    pub transport: UpstreamTransport,
    pub tls_server_name: Option<String>,
}

impl UpstreamConfig {
    pub open spec fn same(&self, other: &UpstreamConfig) -> bool {
        &&& self.resolver_ip@ == other.resolver_ip@
        &&& self.port == other.port
        &&& self.query_timeout_ms == other.query_timeout_ms
        &&& self.max_attempts == other.max_attempts
        &&& self.max_outstanding == other.max_outstanding
        &&& self.breaker_failures == other.breaker_failures
        &&& self.breaker_cooldown_secs == other.breaker_cooldown_secs
        &&& self.transport == other.transport
        &&& text_of(self.tls_server_name) == text_of(other.tls_server_name)
    }

    pub fn same_as(&self, other: &UpstreamConfig) -> (r: bool)
        ensures
            r == self.same(other),
    {
        same_str(self.resolver_ip.as_str(), other.resolver_ip.as_str()) && self.port == other.port
            && self.query_timeout_ms == other.query_timeout_ms && self.max_attempts
            == other.max_attempts && self.max_outstanding == other.max_outstanding
            && self.breaker_failures == other.breaker_failures && self.breaker_cooldown_secs
            == other.breaker_cooldown_secs && self.transport == other.transport && same_option(
            &self.tls_server_name,
            &other.tls_server_name,
        )
    }
}

impl Default for UpstreamConfig {
    fn default() -> (r: UpstreamConfig)
        ensures
            r.resolver_ip@ == "1.1.1.1"@,
            r.port == 53,
            r.query_timeout_ms == 2_000,
            r.max_attempts == 2,
            r.max_outstanding == 64,
            r.breaker_failures == 3,
            r.breaker_cooldown_secs == 30,
            r.transport == UpstreamTransport::Udp,
            r.tls_server_name is None,
    {
        UpstreamConfig {
            resolver_ip: "1.1.1.1".to_owned(),
            port: 53,
            query_timeout_ms: 2_000,
            max_attempts: 2,
            max_outstanding: 64,
            breaker_failures: 3,
            breaker_cooldown_secs: 30,
            transport: UpstreamTransport::Udp,
            tls_server_name: None,
        }
    }
}

#[derive(Clone, Debug, PartialEq, Eq)]
pub struct ServerConfig {
    pub listen: String,
}

impl Default for ServerConfig {
    fn default() -> (r: ServerConfig)
        ensures
            r.listen@ == "127.0.0.1:5353"@,
    {
        ServerConfig { listen: "127.0.0.1:5353".to_owned() }
    }
}

#[derive(Clone, Debug, PartialEq, Eq)]
pub struct AdminConfig {
    pub listen: Option<String>,
    pub token: Option<String>,
}

impl Default for AdminConfig {
    fn default() -> (r: AdminConfig)
        ensures
            r.listen is None,
            r.token is None,
    {
        AdminConfig { listen: None, token: None }
    }
}

#[derive(Clone, Debug, PartialEq, Eq)]
pub struct CaptureConfig {
    pub enabled: bool,
    pub inbound_port: u16,
    pub chain: String,
    pub mark: u32,
    pub ownership_path: String,
    pub original_destination: String,
}

impl CaptureConfig {
    pub open spec fn is_initial(&self) -> bool {
        &&& !self.enabled
        &&& self.inbound_port == 53
        &&& self.chain@ == "capture"@
        &&& self.mark == 42
        &&& self.ownership_path@ == "/var/lib/blackhole/capture.state"@
        &&& self.original_destination@ == "127.0.0.1:53"@
    }
}

impl Default for CaptureConfig {
    fn default() -> (r: CaptureConfig)
        ensures
            r.is_initial(),
    {
        CaptureConfig {
            enabled: false,
            inbound_port: 53,
            chain: "capture".to_owned(),
            mark: 42,
            ownership_path: "/var/lib/blackhole/capture.state".to_owned(),
            original_destination: "127.0.0.1:53".to_owned(),
        }
    }
}

#[derive(Clone, Debug, PartialEq, Eq)]
pub struct DhcpConfig {
    pub enabled: bool,
    pub listen: String,
    pub server: String,
    pub subnet_mask: String,
    pub pool_start: String,
    pub pool_end: String,
    pub router: Option<String>,
    pub dns: Option<String>,
    pub dns_servers: Vec<String>,
    pub domain_name: Option<String>,
    pub lease_secs: u32,
    pub max_leases: usize,
}

impl DhcpConfig {
    pub open spec fn is_initial(&self) -> bool {
        &&& !self.enabled
        &&& self.listen@ == "0.0.0.0:67"@
        &&& self.server@ == "192.0.2.1"@
        &&& self.subnet_mask@ == "255.255.255.0"@
        &&& self.pool_start@ == "192.0.2.100"@
        &&& self.pool_end@ == "192.0.2.199"@
        &&& self.router is None
        &&& self.dns is None
        &&& self.dns_servers@.len() == 0
        &&& self.domain_name is None
        &&& self.lease_secs == 3600
        &&& self.max_leases == 256
    }
}

impl Default for DhcpConfig {
    fn default() -> (r: DhcpConfig)
        ensures
            r.is_initial(),
    {
        DhcpConfig {
            enabled: false,
            listen: "0.0.0.0:67".to_owned(),
            server: "192.0.2.1".to_owned(),
            subnet_mask: "255.255.255.0".to_owned(),
            pool_start: "192.0.2.100".to_owned(),
            pool_end: "192.0.2.199".to_owned(),
            router: None,
            dns: None,
            dns_servers: Vec::new(),
            domain_name: None,
            lease_secs: 3600,
            max_leases: 256,
        }
    }
}

/// What is done with the names of the plain domain list.
#[derive(Clone, Copy, Debug, PartialEq, Eq, Structural)]
pub enum Mode {
    Ignore,
    Nxdomain,
    Honeypot,
}

/// The addresses of the synthetic answers, as the numbers that their octets spell.
#[derive(Clone, Copy, Debug, PartialEq, Eq, Structural)]
pub struct HoneypotConfig {
    pub ipv4: u32,
    pub ipv6: u128,
    pub ttl: u32,
}

impl HoneypotConfig {
    pub open spec fn initial() -> HoneypotConfig {
        HoneypotConfig {
            ipv4: 0xc000_0201,
            ipv6: 0x2001_0db8_0000_0000_0000_0000_0000_0001,
            ttl: 60,
        }
    }
}

impl Default for HoneypotConfig {
    fn default() -> (r: HoneypotConfig)
        ensures
            r == HoneypotConfig::initial(),
    {
        HoneypotConfig {
            ipv4: 0xc000_0201,
            ipv6: 0x2001_0db8_0000_0000_0000_0000_0000_0001,
            ttl: 60,
        }
    }
}

#[derive(Clone, Debug, PartialEq, Eq)]
pub struct PolicyConfig {
    pub filtering_enabled: bool,
    pub mode: Mode,
    pub domains: Vec<String>,
    pub rules: Vec<RuleConfig>,
    pub regex_rules: Vec<RegexRuleConfig>,
    pub blocklists: Vec<String>,
    pub disabled_blocklists: Vec<String>,
    pub blocklist_reload_interval_secs: u64,
    pub rewrites: Vec<RewriteConfig>,
    pub profiles: Vec<ServiceProfileConfig>,
    pub client_groups: Vec<ClientGroupConfig>,
    pub client_identities: Vec<ClientIdentityConfig>,
    pub default_action: Action,
}

impl PolicyConfig {
    /// The given configuration with every list empty and the default switches.
    pub open spec fn initial(given: PolicyConfig) -> PolicyConfig {
        PolicyConfig {
            filtering_enabled: true,
            mode: Mode::Nxdomain,
            blocklist_reload_interval_secs: 0,
            default_action: Action::Pass,
            ..given
        }
    }

    pub open spec fn is_empty(&self) -> bool {
        &&& self.domains@.len() == 0
        &&& self.rules@.len() == 0
        &&& self.regex_rules@.len() == 0
        &&& self.blocklists@.len() == 0
        &&& self.disabled_blocklists@.len() == 0
        &&& self.rewrites@.len() == 0
        &&& self.profiles@.len() == 0
        &&& self.client_groups@.len() == 0
        &&& self.client_identities@.len() == 0
    }
}

impl Default for PolicyConfig {
    fn default() -> (r: PolicyConfig)
        ensures
            r == PolicyConfig::initial(r),
            r.is_empty(),
    {
        PolicyConfig {
            filtering_enabled: true,
            mode: Mode::Nxdomain,
            domains: Vec::new(),
            rules: Vec::new(),
            regex_rules: Vec::new(),
            blocklists: Vec::new(),
            disabled_blocklists: Vec::new(),
            blocklist_reload_interval_secs: 0,
            rewrites: Vec::new(),
            profiles: Vec::new(),
            client_groups: Vec::new(),
            client_identities: Vec::new(),
            default_action: Action::Pass,
        }
    }
}

/// A rule that matches names by a regular expression.
#[derive(Clone, Debug, PartialEq, Eq)]
pub struct RegexRuleConfig {
    pub enabled: bool,
    pub id: u32,
    pub pattern: String,
    pub action: Action,
    pub priority: i32,
    pub qtype: Option<u16>,
    pub qtypes: Vec<u16>,
    pub qclass: Option<u16>,
    pub qclasses: Vec<u16>,
    pub client: Option<IpAddr>,
    pub client_cidrs: Vec<String>,
}

/// The value of a regular expression rule.
pub struct RegexRuleView {
    pub enabled: bool,
    pub id: u32,
    pub pattern: Seq<char>,
    pub action: Action,
    pub priority: i32,
    pub qtype: Option<u16>,
    pub qtypes: Seq<u16>,
    pub qclass: Option<u16>,
    pub qclasses: Seq<u16>,
    pub client: Option<IpAddr>,
    pub client_cidrs: Seq<Seq<char>>,
}

impl View for RegexRuleConfig {
    type V = RegexRuleView;

    open spec fn view(&self) -> RegexRuleView {
        RegexRuleView {
            enabled: self.enabled,
            id: self.id,
            pattern: self.pattern@,
            action: self.action,
            priority: self.priority,
            qtype: self.qtype,
            qtypes: self.qtypes@,
            qclass: self.qclass,
            qclasses: self.qclasses@,
            client: self.client,
            client_cidrs: texts(self.client_cidrs@),
        }
    }
}

pub open spec fn regex_views(list: Seq<RegexRuleConfig>) -> Seq<RegexRuleView> {
    item_views(list)
}

impl RegexRuleConfig {
    pub fn copied(&self) -> (r: RegexRuleConfig)
        ensures
            r@ == self@,
    {
        RegexRuleConfig {
            enabled: self.enabled,
            id: self.id,
            pattern: self.pattern.clone(),
            action: self.action,
            priority: self.priority,
            qtype: self.qtype,
            qtypes: copy_list(&self.qtypes),
            qclass: self.qclass,
            qclasses: copy_list(&self.qclasses),
            client: self.client,
            client_cidrs: copy_texts(&self.client_cidrs),
        }
    }

    pub fn same_as(&self, other: &RegexRuleConfig) -> (r: bool)
        ensures
            r == (self@ == other@),
    {
        self.enabled == other.enabled && self.id == other.id && same_str(
            self.pattern.as_str(),
            other.pattern.as_str(),
        ) && self.action == other.action && self.priority == other.priority && self.qtype
            == other.qtype && same_u16s(&self.qtypes, &other.qtypes) && self.qclass == other.qclass
            && same_u16s(&self.qclasses, &other.qclasses) && self.client == other.client
            && same_texts(&self.client_cidrs, &other.client_cidrs)
    }
}

/// The clients that carry an identity label.
#[derive(Clone, Debug, PartialEq, Eq)]
pub struct ClientIdentityConfig {
    pub name: String,
    pub enabled: bool,
    pub clients: Vec<IpAddr>,
    pub client_cidrs: Vec<String>,
}

/// The value of an identity.
pub struct IdentityView {
    pub name: Seq<char>,
    pub enabled: bool,
    pub clients: Seq<IpAddr>,
    pub client_cidrs: Seq<Seq<char>>,
}

impl View for ClientIdentityConfig {
    type V = IdentityView;

    open spec fn view(&self) -> IdentityView {
        IdentityView {
            name: self.name@,
            enabled: self.enabled,
            clients: self.clients@,
            client_cidrs: texts(self.client_cidrs@),
        }
    }
}

pub open spec fn identity_views(list: Seq<ClientIdentityConfig>) -> Seq<IdentityView> {
    item_views(list)
}

impl ClientIdentityConfig {
    pub fn copied(&self) -> (r: ClientIdentityConfig)
        ensures
            r@ == self@,
    {
        ClientIdentityConfig {
            name: self.name.clone(),
            enabled: self.enabled,
            clients: copy_list(&self.clients),
            client_cidrs: copy_texts(&self.client_cidrs),
        }
    }

    pub fn same_as(&self, other: &ClientIdentityConfig) -> (r: bool)
        ensures
            r == (self@ == other@),
    {
        same_str(self.name.as_str(), other.name.as_str()) && self.enabled == other.enabled
            && same_addresses(&self.clients, &other.clients) && same_texts(
            &self.client_cidrs,
            &other.client_cidrs,
        )
    }
}

/// A name that is answered locally, with addresses or with an alias.
#[derive(Clone, Debug, PartialEq, Eq)]
pub struct RewriteConfig {
    pub name: String,
    pub ipv4: Option<u32>,
    pub ipv6: Option<u128>,
    pub cname: Option<String>,
    pub ttl: u32,
}

/// The value of a rewrite.
pub struct RewriteView {
    pub name: Seq<char>,
    pub ipv4: Option<u32>,
    pub ipv6: Option<u128>,
    pub cname: Option<Seq<char>>,
    pub ttl: u32,
}

impl View for RewriteConfig {
    type V = RewriteView;

    open spec fn view(&self) -> RewriteView {
        RewriteView {
            name: self.name@,
            ipv4: self.ipv4,
            ipv6: self.ipv6,
            cname: text_of(self.cname),
            ttl: self.ttl,
        }
    }
}

pub open spec fn rewrite_views(list: Seq<RewriteConfig>) -> Seq<RewriteView> {
    item_views(list)
}

impl RewriteConfig {
    pub fn copied(&self) -> (r: RewriteConfig)
        ensures
            r@ == self@,
    {
        RewriteConfig {
            name: self.name.clone(),
            ipv4: self.ipv4,
            ipv6: self.ipv6,
            cname: copy_option(&self.cname),
            ttl: self.ttl,
        }
    }

    pub fn same_as(&self, other: &RewriteConfig) -> (r: bool)
        ensures
            r == (self@ == other@),
    {
        same_str(self.name.as_str(), other.name.as_str()) && self.ipv4 == other.ipv4 && self.ipv6
            == other.ipv6 && same_option(&self.cname, &other.cname) && self.ttl == other.ttl
    }
}

/// A named bundle of domains that is applied to some clients.
#[derive(Clone, Debug, PartialEq, Eq)]
pub struct ServiceProfileConfig {
    pub id: u32,
    pub name: String,
    pub enabled: bool,
    pub domains: Vec<String>,
    pub action: Action,
    pub groups: Vec<String>,
    pub client_identity: Option<String>,
    pub priority: i32,
    pub client_cidrs: Vec<String>,
    pub qtype: Option<u16>,
    pub qtypes: Vec<u16>,
    pub qclass: Option<u16>,
    pub qclasses: Vec<u16>,
}

/// The value of a profile.
pub struct ProfileView {
    pub id: u32,
    pub name: Seq<char>,
    pub enabled: bool,
    pub domains: Seq<Seq<char>>,
    pub action: Action,
    pub groups: Seq<Seq<char>>,
    pub client_identity: Option<Seq<char>>,
    pub priority: i32,
    pub client_cidrs: Seq<Seq<char>>,
    pub qtype: Option<u16>,
    pub qtypes: Seq<u16>,
    pub qclass: Option<u16>,
    pub qclasses: Seq<u16>,
}

impl View for ServiceProfileConfig {
    type V = ProfileView;

    open spec fn view(&self) -> ProfileView {
        ProfileView {
            id: self.id,
            name: self.name@,
            enabled: self.enabled,
            domains: texts(self.domains@),
            action: self.action,
            groups: texts(self.groups@),
            client_identity: text_of(self.client_identity),
            priority: self.priority,
            client_cidrs: texts(self.client_cidrs@),
            qtype: self.qtype,
            qtypes: self.qtypes@,
            qclass: self.qclass,
            qclasses: self.qclasses@,
        }
    }
}

pub open spec fn profile_views(list: Seq<ServiceProfileConfig>) -> Seq<ProfileView> {
    item_views(list)
}

impl ServiceProfileConfig {
    pub fn copied(&self) -> (r: ServiceProfileConfig)
        ensures
            r@ == self@,
    {
        ServiceProfileConfig {
            id: self.id,
            name: self.name.clone(),
            enabled: self.enabled,
            domains: copy_texts(&self.domains),
            action: self.action,
            groups: copy_texts(&self.groups),
            client_identity: copy_option(&self.client_identity),
            priority: self.priority,
            client_cidrs: copy_texts(&self.client_cidrs),
            qtype: self.qtype,
            qtypes: copy_list(&self.qtypes),
            qclass: self.qclass,
            qclasses: copy_list(&self.qclasses),
        }
    }

    pub fn same_as(&self, other: &ServiceProfileConfig) -> (r: bool)
        ensures
            r == (self@ == other@),
    {
        self.id == other.id && same_str(self.name.as_str(), other.name.as_str()) && self.enabled
            == other.enabled && same_texts(&self.domains, &other.domains) && self.action
            == other.action && same_texts(&self.groups, &other.groups) && same_option(
            &self.client_identity,
            &other.client_identity,
        ) && self.priority == other.priority && same_texts(&self.client_cidrs, &other.client_cidrs)
            && self.qtype == other.qtype && same_u16s(&self.qtypes, &other.qtypes) && self.qclass
            == other.qclass && same_u16s(&self.qclasses, &other.qclasses)
    }
}

/// Clients that profiles are applied to together.
#[derive(Clone, Debug, PartialEq, Eq)]
pub struct ClientGroupConfig {
    pub name: String,
    pub enabled: bool,
    pub client_addresses: Vec<IpAddr>,
    pub client_cidrs: Vec<String>,
}

/// The value of a client group.
pub struct GroupView {
    pub name: Seq<char>,
    pub enabled: bool,
    pub client_addresses: Seq<IpAddr>,
    pub client_cidrs: Seq<Seq<char>>,
}

impl View for ClientGroupConfig {
    type V = GroupView;

    open spec fn view(&self) -> GroupView {
        GroupView {
            name: self.name@,
            enabled: self.enabled,
            client_addresses: self.client_addresses@,
            client_cidrs: texts(self.client_cidrs@),
        }
    }
}

pub open spec fn group_views(list: Seq<ClientGroupConfig>) -> Seq<GroupView> {
    item_views(list)
}

impl ClientGroupConfig {
    pub fn copied(&self) -> (r: ClientGroupConfig)
        ensures
            r@ == self@,
    {
        ClientGroupConfig {
            name: self.name.clone(),
            enabled: self.enabled,
            client_addresses: copy_list(&self.client_addresses),
            client_cidrs: copy_texts(&self.client_cidrs),
        }
    }

    pub fn same_as(&self, other: &ClientGroupConfig) -> (r: bool)
        ensures
            r == (self@ == other@),
    {
        same_str(self.name.as_str(), other.name.as_str()) && self.enabled == other.enabled
            && same_addresses(&self.client_addresses, &other.client_addresses) && same_texts(
            &self.client_cidrs,
            &other.client_cidrs,
        )
    }
}

impl Item for RegexRuleConfig {
    type Key = u32;

    open spec fn key(value: RegexRuleView) -> u32 {
        value.id
    }

    fn duplicate(&self) -> (r: RegexRuleConfig) {
        self.copied()
    }

    fn equal(&self, other: &RegexRuleConfig) -> (r: bool) {
        self.same_as(other)
    }

    fn same_key(&self, other: &RegexRuleConfig) -> (r: bool) {
        self.id == other.id
    }
}

impl Item for ServiceProfileConfig {
    type Key = u32;

    open spec fn key(value: ProfileView) -> u32 {
        value.id
    }

    fn duplicate(&self) -> (r: ServiceProfileConfig) {
        self.copied()
    }

    fn equal(&self, other: &ServiceProfileConfig) -> (r: bool) {
        self.same_as(other)
    }

    fn same_key(&self, other: &ServiceProfileConfig) -> (r: bool) {
        self.id == other.id
    }
}

impl Item for ClientIdentityConfig {
    type Key = Seq<char>;

    open spec fn key(value: IdentityView) -> Seq<char> {
        value.name
    }

    fn duplicate(&self) -> (r: ClientIdentityConfig) {
        self.copied()
    }

    fn equal(&self, other: &ClientIdentityConfig) -> (r: bool) {
        self.same_as(other)
    }

    fn same_key(&self, other: &ClientIdentityConfig) -> (r: bool) {
        same_str(self.name.as_str(), other.name.as_str())
    }
}

impl Item for ClientGroupConfig {
    type Key = Seq<char>;

    open spec fn key(value: GroupView) -> Seq<char> {
        lower(trimmed(value.name))
    }

    fn duplicate(&self) -> (r: ClientGroupConfig) {
        self.copied()
    }

    fn equal(&self, other: &ClientGroupConfig) -> (r: bool) {
        self.same_as(other)
    }

    fn same_key(&self, other: &ClientGroupConfig) -> (r: bool) {
        let a = trim(&to_chars(self.name.as_str()));
        let b = trim(&to_chars(other.name.as_str()));
        same(&to_lower(&a), &to_lower(&b))
    }
}

impl Item for RewriteConfig {
    type Key = Seq<char>;

    open spec fn key(value: RewriteView) -> Seq<char> {
        normal(value.name)
    }

    fn duplicate(&self) -> (r: RewriteConfig) {
        self.copied()
    }

    fn equal(&self, other: &RewriteConfig) -> (r: bool) {
        self.same_as(other)
    }

    fn same_key(&self, other: &RewriteConfig) -> (r: bool) {
        let a = normalize_chars(&to_chars(self.name.as_str()));
        let b = normalize_chars(&to_chars(other.name.as_str()));
        same(&a, &b)
    }
}

} // verus!
