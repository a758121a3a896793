//! The Blackhole DNS sinkhole: its policy, its configuration, and the rules by which queries are
//! answered.
use vstd::prelude::*;

pub mod admin;
pub mod admission;
pub mod blocklist;
pub mod buckets;
pub mod bump;
pub mod bundle;
pub mod cache;
pub mod config;
pub mod country;
pub mod decisions;
pub mod dhcp;
pub mod dns;
pub mod edge;
pub mod fsm;
pub mod identities;
pub mod items;
pub mod legacy;
pub mod limits;
pub mod linux_capture;
pub mod listener;
pub mod listing;
pub mod lists;
pub mod membership;
pub mod names;
pub mod net;
pub mod policy;
pub mod profiles;
pub mod query;
pub mod recording;
pub mod regex_rules;
pub mod reload;
pub mod rewrites;
pub mod runtime;
pub mod serving;
pub mod sources;
pub mod state;
pub mod status;
pub mod tables;
pub mod text;
pub mod text_set;
pub mod traffic;
pub mod upstream;

pub use config::{AdminConfig, AdmissionConfig, CacheConfig, CaptureConfig, ClientGroupConfig,
    ClientIdentityConfig, Config, CountryPolicyConfig, DdosConfig, DhcpConfig, HoneypotConfig, Mode,
    PolicyConfig, PrivacyConfig, QueryRecordingRedaction, RegexRuleConfig, RewriteConfig,
    SecurityConfig, ServerConfig, ServiceProfileConfig, UpstreamConfig, UpstreamTransport};
pub use policy::{Action, RuleConfig};
pub use recording::QueryLog;
pub use runtime::Policy;
pub use state::ReloadState;

verus! {

} // verus!
