//! The running policy: its configuration, its tables, and the traffic it has seen.
use vstd::prelude::*;
use vstd::string::*;

use crate::admission::{admission_error, check_privacy, check_startup_admission, privacy_fault,
    startup_fault};
use crate::blocklist::{active_blocklist_paths, active_paths, load_blocklists_at, rules_at,
    source_views, BlocklistSource, SourceView};
use crate::cache::DnsCache;
use crate::config::{group_views, identity_views, profile_views, regex_views, rewrite_views, Config};
use crate::country::{load_country_policy, loaded, CountryPolicyView, CountrySource};
use crate::dhcp::{dhcp_error, dhcp_fault, validate_dhcp};
use crate::identities::{identities_fault, validate_client_identities};
use crate::items::{append_items, copy_items};
use crate::legacy::{configured_domains_are_normal, normal_domains, normalize_domains};
use crate::lists::copy_texts;
use crate::policy::{compiled_policy, rule_views, ErrorView, PolicyError, ReferencePolicy, RuleView};
use crate::profiles::{compile_profiles, compiled_profiles};
use crate::recording::{bounded_product, LogEvent, QueryLog};
use crate::regex_rules::{compile_regex_rules, compiled_regex};
use crate::rewrites::{compile_rewrites, compiled_rewrites};
use crate::state::{compiled_from, compiled_regex_does_not_clash, expanded_from, ids_of, published,
    rule_ids, Tables, TablesView};
use crate::text::{decimal, texts, with_number};
use crate::text_set::TextSet;
use crate::traffic::{no_traffic, Traffic};
use crate::upstream::{upstream_fault, validate_upstream};

verus! {

/// The longest interval between two background reloads.
pub const MAX_RELOAD_INTERVAL_SECS: u64 = 86_400;

pub open spec fn interval_message() -> Seq<char> {
    "reload interval exceeds "@ + decimal(MAX_RELOAD_INTERVAL_SECS as nat) + " seconds"@
}

fn interval_text() -> (r: String)
    ensures
        r@ == interval_message(),
{
    with_number("reload interval exceeds ", MAX_RELOAD_INTERVAL_SECS, " seconds")
}

/// What is wrong with the settings that stand for themselves: the first fault counts.
pub open spec fn settings_fault(config: Config) -> Option<ErrorView> {
    if dhcp_fault(config.dhcp) is Some {
        Some(dhcp_error(dhcp_fault(config.dhcp)->0))
    } else if config.cache.max_ttl_secs == 0 {
        Some(ErrorView::InvalidCache { reason: "max_ttl_secs must be non-zero"@ })
    } else if startup_fault(config.admission@) is Some {
        Some(admission_error(startup_fault(config.admission@)->0))
    } else if privacy_fault(config.privacy, config.admission.ddos.persist_incidents) is Some {
        Some(
            admission_error(
                privacy_fault(config.privacy, config.admission.ddos.persist_incidents)->0,
            ),
        )
    } else if config.policy.blocklist_reload_interval_secs > MAX_RELOAD_INTERVAL_SECS {
        Some(ErrorView::InvalidBlocklist { path: "<config>"@, reason: interval_message() })
    } else if config.country_policy.reload_interval_secs > MAX_RELOAD_INTERVAL_SECS {
        Some(ErrorView::InvalidCountryMap { path: "<config>"@, reason: interval_message() })
    } else if config.reload_interval_secs > MAX_RELOAD_INTERVAL_SECS {
        Some(ErrorView::InvalidConfigReload { reason: interval_message() })
    } else {
        None
    }
}

fn check_settings(config: &Config) -> (r: Result<(), PolicyError>)
    ensures
        match settings_fault(*config) {
            Some(error) => r is Err && r->Err_0@ == error,
            None => r is Ok,
        },
{
    match validate_dhcp(&config.dhcp) {
        Ok(()) => {},
        Err(error) => {
            return Err(error);
        },
    }
    if config.cache.max_ttl_secs == 0 {
        return Err(
            PolicyError::InvalidCache { reason: "max_ttl_secs must be non-zero".to_owned() },
        );
    }
    match check_startup_admission(&config.admission) {
        Ok(()) => {},
        Err(error) => {
            return Err(error);
        },
    }
    match check_privacy(&config.privacy, config.admission.ddos.persist_incidents) {
        Ok(()) => {},
        Err(error) => {
            return Err(error);
        },
    }
    if config.policy.blocklist_reload_interval_secs > MAX_RELOAD_INTERVAL_SECS {
        return Err(
            PolicyError::InvalidBlocklist { path: "<config>".to_owned(), reason: interval_text() },
        );
    }
    if config.country_policy.reload_interval_secs > MAX_RELOAD_INTERVAL_SECS {
        return Err(
            PolicyError::InvalidCountryMap { path: "<config>".to_owned(), reason: interval_text() },
        );
    }
    if config.reload_interval_secs > MAX_RELOAD_INTERVAL_SECS {
        return Err(PolicyError::InvalidConfigReload { reason: interval_text() });
    }
    Ok(())
}

/// The tables that a configuration starts with, from what reading its sources gave.
pub open spec fn first_tables(config: Config, files: Seq<SourceView>, country: CountrySource) -> Result<
    TablesView,
    ErrorView,
> {
    let rules = rule_views(config.policy.rules@);
    let profiles = profile_views(config.policy.profiles@);
    let groups = group_views(config.policy.client_groups@);
    let paths = texts(config.policy.blocklists@);
    let disabled = texts(config.policy.disabled_blocklists@);
    let regex_configs = regex_views(config.policy.regex_rules@);
    let rewrite_configs = rewrite_views(config.policy.rewrites@);
    let identities = identity_views(config.policy.client_identities@);
    match compiled_profiles(profiles, groups) {
        Err(error) => Err(error),
        Ok(generated) => match active_paths(paths, disabled) {
            Err(error) => Err(error),
            Ok(active) => match rules_at(files, active) {
                Err(error) => Err(error),
                Ok(lists) => match loaded(config.country_policy@, country) {
                    Err(error) => Err(error),
                    Ok(country_policy) => match compiled_rewrites(rewrite_configs) {
                        Err(error) => Err(error),
                        Ok(rewrites) => {
                            let base = rules + generated;
                            let all = base + lists;
                            match compiled_regex(regex_configs, ids_of(all)) {
                                Err(error) => Err(error),
                                Ok(regex_rules) => match compiled_policy(all) {
                                    Err(error) => Err(error),
                                    Ok(reference) => match identities_fault(identities) {
                                        Some(error) => Err(error),
                                        None => Ok(
                                            TablesView {
                                                base_rules: base,
                                                explicit_rules: rules,
                                                blocklist_rules: lists,
                                                blocklist_paths: paths,
                                                disabled_paths: disabled.to_set(),
                                                profiles,
                                                client_groups: groups,
                                                client_identities: identities,
                                                country: country_policy,
                                                country_config: config.country_policy@,
                                                legacy_domains: normal_domains(
                                                    texts(config.policy.domains@),
                                                ),
                                                legacy_mode: config.policy.mode,
                                                default_action: config.policy.default_action,
                                                filtering_enabled: config.policy.filtering_enabled,
                                                rewrite_configs,
                                                rewrites,
                                                reference,
                                                regex_rules,
                                                redaction: config.privacy.query_recording_redaction,
                                                admission: config.admission@,
                                                cache: Seq::empty(),
                                                cache_config: config.cache,
                                                generation: 1,
                                            },
                                        ),
                                    },
                                },
                            }
                        },
                    },
                },
            },
        },
    }
}

/// The tables that a running policy starts with, or the first thing that is wrong with the
/// configuration.
pub open spec fn started(config: Config, files: Seq<SourceView>, country: CountrySource) -> Result<
    TablesView,
    ErrorView,
> {
    match settings_fault(config) {
        Some(error) => Err(error),
        None => match first_tables(config, files, country) {
            Err(error) => Err(error),
            Ok(tables) => match config.upstream {
                None => Ok(tables),
                Some(upstream) => match upstream_fault(upstream, config.server.listen@) {
                    Some(reason) => Err(ErrorView::InvalidUpstream { reason }),
                    None => Ok(tables),
                },
            },
        },
    }
}

fn build_tables(config: &Config, files: &[BlocklistSource], country: &CountrySource) -> (r: Result<
    Tables,
    PolicyError,
>)
    ensures
        match first_tables(*config, source_views(files@), *country) {
            Ok(tables) => r is Ok && r->Ok_0@ == tables && r->Ok_0.wf(),
            Err(error) => r is Err && r->Err_0@ == error,
        },
{
    let generated = match compile_profiles(&config.policy.profiles, &config.policy.client_groups) {
        Ok(rules) => rules,
        Err(error) => {
            return Err(error);
        },
    };
    let mut base = copy_items(&config.policy.rules);
    append_items(&mut base, &generated);
    let active = match active_blocklist_paths(
        &config.policy.blocklists,
        &config.policy.disabled_blocklists,
    ) {
        Ok(active) => active,
        Err(error) => {
            return Err(error);
        },
    };
    let lists = match load_blocklists_at(files, &active) {
        Ok(rules) => rules,
        Err(error) => {
            return Err(error);
        },
    };
    let country_policy = match load_country_policy(&config.country_policy, country) {
        Ok(policy) => policy,
        Err(error) => {
            return Err(error);
        },
    };
    let rewrites = match compile_rewrites(&config.policy.rewrites) {
        Ok(table) => table,
        Err(error) => {
            return Err(error);
        },
    };
    let mut all = copy_items(&base);
    append_items(&mut all, &lists);
    let ids = rule_ids(&all);
    let regex_rules = match compile_regex_rules(&config.policy.regex_rules, &ids) {
        Ok(rules) => rules,
        Err(error) => {
            return Err(error);
        },
    };
    let reference = match ReferencePolicy::new(&all) {
        Ok(reference) => reference,
        Err(error) => {
            return Err(error);
        },
    };
    let client_identities = match validate_client_identities(&config.policy.client_identities) {
        Ok(list) => list,
        Err(error) => {
            return Err(error);
        },
    };
    proof {
        compiled_regex_does_not_clash(
            rule_views(all@),
            regex_views(config.policy.regex_rules@),
        );
        configured_domains_are_normal(texts(config.policy.domains@));
    }
    let r = Tables {
        base_rules: base,
        explicit_rules: copy_items(&config.policy.rules),
        blocklist_rules: lists,
        blocklist_paths: copy_texts(&config.policy.blocklists),
        disabled_blocklist_paths: TextSet::from_list(&config.policy.disabled_blocklists),
        profiles: copy_items(&config.policy.profiles),
        client_groups: copy_items(&config.policy.client_groups),
        client_identities,
        country_policy,
        country_policy_config: config.country_policy.copied(),
        legacy_domains: normalize_domains(&config.policy.domains),
        legacy_mode: config.policy.mode,
        default_action: config.policy.default_action,
        filtering_enabled: config.policy.filtering_enabled,
        rewrite_configs: copy_items(&config.policy.rewrites),
        rewrites,
        reference,
        regex_rules,
        query_recording_redaction: config.privacy.query_recording_redaction,
        admission: config.admission.copied(),
        cache: DnsCache::new(&config.cache),
        policy_generation: 1,
    };
    assert(published(r@) == rule_views(all@));
    Ok(r)
}

/// A running policy.
pub struct Policy {
    pub config: Config,
    pub tables: Tables,
    pub traffic: Traffic,
    pub query_log: Option<QueryLog>,
    /// How often each action was taken.
    pub decision_counts: Vec<u64>,
}

/// The number of actions.
pub const ACTIONS: usize = 9;

impl Policy {
    pub open spec fn wf(&self) -> bool {
        &&& self.tables.wf()
        &&& self.tables@.cache_config == self.config.cache
        &&& self.traffic.wf()
        &&& self.decision_counts@.len() == ACTIONS
    }

    /// Nothing but the tables differs.
    pub open spec fn only_tables(&self, other: &Policy) -> bool {
        &&& self.config == other.config
        &&& self.traffic == other.traffic
        &&& self.query_log == other.query_log
        &&& self.decision_counts == other.decision_counts
    }

    /// Nothing but the traffic differs.
    pub open spec fn only_traffic(&self, other: &Policy) -> bool {
        &&& self.config == other.config
        &&& self.tables == other.tables
        &&& self.query_log == other.query_log
        &&& self.decision_counts == other.decision_counts
    }

    /// Checks a configuration and starts a policy with it. `files` is what reading the filter
    /// lists gave, and `country` what reading the country map gave.
    pub fn new(config: Config, files: &[BlocklistSource], country: &CountrySource) -> (r: Result<
        Policy,
        PolicyError,
    >)
        ensures
            match started(config, source_views(files@), *country) {
                Ok(tables) => {
                    &&& r is Ok
                    &&& r->Ok_0.wf()
                    &&& r->Ok_0.config == config
                    &&& r->Ok_0.tables@ == tables
                    &&& r->Ok_0.traffic@ == no_traffic()
                    &&& r->Ok_0.query_log is Some <==> config.privacy.query_log_enabled
                    &&& r->Ok_0.query_log is Some ==> {
                        let log = r->Ok_0.query_log->0;
                        &&& log@ == Seq::<LogEvent>::empty()
                        &&& log.max_entries == config.privacy.query_log_max_entries
                        &&& log.retention_ms == bounded_product(
                            config.privacy.query_log_retention_secs,
                            1000,
                        )
                    }
                    &&& forall|i: int| 0 <= i < ACTIONS ==> r->Ok_0.decision_counts@[i] == 0
                },
                Err(error) => r is Err && r->Err_0@ == error,
            },
    {
        match check_settings(&config) {
            Ok(()) => {},
            Err(error) => {
                return Err(error);
            },
        }
        let tables = match build_tables(&config, files, country) {
            Ok(tables) => tables,
            Err(error) => {
                return Err(error);
            },
        };
        match &config.upstream {
            Some(upstream) => match validate_upstream(upstream, config.server.listen.as_str()) {
                Ok(()) => {},
                Err(error) => {
                    return Err(error);
                },
            },
            None => {},
        }
        let query_log = if config.privacy.query_log_enabled {
            Some(QueryLog::new(&config.privacy))
        } else {
            None
        };
        let decision_counts = zero_counts();
        Ok(Policy { config, tables, traffic: Traffic::new(), query_log, decision_counts })
    }
}

/// A count of zero for each action.
pub fn zero_counts() -> (r: Vec<u64>)
    ensures
        r@.len() == ACTIONS,
        forall|i: int| 0 <= i < ACTIONS ==> r@[i] == 0,
{
    let mut counts: Vec<u64> = Vec::new();
    while counts.len() < ACTIONS
        invariant
            counts@.len() <= ACTIONS,
            forall|i: int| 0 <= i < counts@.len() ==> counts@[i] == 0,
        decreases ACTIONS - counts@.len(),
    {
        counts.push(0);
    }
    counts
}

/// A policy that starts decides with exactly the rules of its configuration, of its profiles and
/// of its filter lists, answers with its rewrites, and uses no number twice.
pub proof fn a_started_policy_is_consistent(
    config: Config,
    files: Seq<SourceView>,
    country: CountrySource,
)
    requires
        started(config, files, country) is Ok,
    ensures
        compiled_from(started(config, files, country)->Ok_0),
        expanded_from(started(config, files, country)->Ok_0),
        started(config, files, country)->Ok_0.generation == 1,
{
    let tables = started(config, files, country)->Ok_0;
    compiled_regex_does_not_clash(published(tables), regex_views(config.policy.regex_rules@));
    configured_domains_are_normal(texts(config.policy.domains@));
}

/// A policy starts with what its configuration says: the rules, the sources that are not disabled,
/// the profiles, groups, identities and local answers, the switches and the limits, an empty cache
/// and the first generation.
pub proof fn a_started_policy_is_as_configured(
    config: Config,
    files: Seq<SourceView>,
    country: CountrySource,
)
    requires
        started(config, files, country) is Ok,
    ensures
        ({
            let tables = started(config, files, country)->Ok_0;
            &&& tables.explicit_rules == rule_views(config.policy.rules@)
            &&& tables.blocklist_paths == texts(config.policy.blocklists@)
            &&& tables.disabled_paths == texts(config.policy.disabled_blocklists@).to_set()
            &&& active_paths(
                texts(config.policy.blocklists@),
                texts(config.policy.disabled_blocklists@),
            ) matches Ok(active) && rules_at(files, active) == Ok::<Seq<RuleView>, ErrorView>(
                tables.blocklist_rules,
            )
            &&& tables.profiles == profile_views(config.policy.profiles@)
            &&& tables.client_groups == group_views(config.policy.client_groups@)
            &&& tables.client_identities == identity_views(config.policy.client_identities@)
            &&& identities_fault(tables.client_identities) is None
            &&& tables.rewrite_configs == rewrite_views(config.policy.rewrites@)
            &&& tables.country_config == config.country_policy@
            &&& loaded(config.country_policy@, country) == Ok::<
                Option<CountryPolicyView>,
                ErrorView,
            >(tables.country)
            &&& tables.legacy_mode == config.policy.mode
            &&& tables.legacy_domains == normal_domains(texts(config.policy.domains@))
            &&& tables.default_action == config.policy.default_action
            &&& tables.filtering_enabled == config.policy.filtering_enabled
            &&& tables.redaction == config.privacy.query_recording_redaction
            &&& tables.admission == config.admission@
            &&& tables.cache.len() == 0
            &&& tables.cache_config == config.cache
            &&& tables.generation == 1
        }),
{
}

/// A policy starts only with a cache that can keep something for a time, with intervals of at most a
/// day, and with limits, addresses and a resolver that are accepted.
pub proof fn a_started_policy_is_bounded(
    config: Config,
    files: Seq<SourceView>,
    country: CountrySource,
)
    requires
        started(config, files, country) is Ok,
    ensures
        config.cache.max_ttl_secs > 0,
        config.policy.blocklist_reload_interval_secs <= 86_400,
        config.country_policy.reload_interval_secs <= 86_400,
        config.reload_interval_secs <= 86_400,
        startup_fault(config.admission@) is None,
        dhcp_fault(config.dhcp) is None,
        privacy_fault(config.privacy, config.admission.ddos.persist_incidents) is None,
        config.upstream is Some ==> upstream_fault(config.upstream->0, config.server.listen@)
            is None,
{
}

/// A change of the tables touches neither the configuration nor the traffic, the log or the counts;
/// a question to the limits touches the traffic alone.
pub proof fn parts_change_by_themselves(a: &Policy, b: &Policy)
    ensures
        a.only_tables(b) ==> a.config == b.config && a.traffic == b.traffic && a.query_log
            == b.query_log && a.decision_counts == b.decision_counts,
        a.only_traffic(b) ==> a.config == b.config && a.tables == b.tables && a.query_log
            == b.query_log && a.decision_counts == b.decision_counts,
{
}

} // verus!
