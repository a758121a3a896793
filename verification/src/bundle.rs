//! Changes of the whole policy at once: every table is checked against the others before anything
//! is published.
use vstd::prelude::*;
use vstd::string::*;

use crate::admission::{admission_error, replacement_fault, validate_admission};
use crate::blocklist::{active_blocklist_paths, active_paths, load_blocklists_at, rules_at,
    source_views, BlocklistSource, SourceView};
use crate::config::{group_views, identity_views, profile_views, regex_views, rewrite_views,
    AdminConfig, AdmissionConfig, AdmissionView, CaptureConfig, ClientGroupConfig,
    ClientIdentityConfig, Config, CountryPolicyConfig, CountryView, DhcpConfig, GroupView,
    IdentityView, Mode, ProfileView, RegexRuleConfig, RegexRuleView, RewriteConfig, RewriteView,
    ServiceProfileConfig, UpstreamConfig};
use crate::country::{load_country_policy, loaded, CountryPolicy, CountryPolicyView, CountrySource};
use crate::identities::{identities_fault, validate_client_identities};
use crate::items::{append_items, copy_items, same_items};
use crate::legacy::{accepted_domains_are_normal, all_normal, legacy_domains,
    validate_legacy_domains};
use crate::lists::{copy_texts, same_option, same_texts, text_of};
use crate::policy::{compiled_policy, rule_views, Action, ErrorView, Meaning, PolicyError,
    ReferencePolicy, RuleConfig, RuleView};
use crate::profiles::{compile_profiles, compiled_profiles};
use crate::regex_rules::{compile_regex_rules, compiled_regex, listed_as_configured,
    listed_rules_are_those_configured, published_rules, RegexMeaning, RegexRules};
use crate::rewrites::{compile_rewrites, compiled_rewrites, Answers, RewriteTable};
use crate::runtime::Policy;
use crate::sources::same_country;
use crate::state::{compiled_from, compiled_regex_does_not_clash, counted, country_view, expanded_from,
    ids_of, performed, published, renewed, rule_ids, Change, ReloadState, Tables, TablesView};
use crate::text::{same_str, texts};
use crate::text_set::{sorted, TextSet};

verus! {

/// A whole policy. What is left out stays as it is.
pub struct BundleView {
    pub rules: Seq<RuleView>,
    pub regex_rules: Seq<RegexRuleView>,
    pub profiles: Seq<ProfileView>,
    pub client_groups: Seq<GroupView>,
    pub client_identities: Seq<IdentityView>,
    pub rewrites: Seq<RewriteView>,
    pub country: CountryView,
    pub paths: Option<Seq<Seq<char>>>,
    /// Whether the loaded filter rules stay as they are.
    pub keep_lists: bool,
    pub mode: Option<Mode>,
    pub domains: Option<Seq<Seq<char>>>,
    pub default_action: Option<Action>,
    pub filtering_enabled: Option<bool>,
    pub disabled: Option<Seq<Seq<char>>>,
    pub admission: Option<AdmissionView>,
}

#[derive(Clone, Copy)]
pub struct PolicyBundle<'a> {
    pub rules: &'a [RuleConfig],
    pub regex_rules: &'a [RegexRuleConfig],
    pub profiles: &'a [ServiceProfileConfig],
    pub client_groups: &'a [ClientGroupConfig],
    pub client_identities: &'a [ClientIdentityConfig],
    pub rewrites: &'a [RewriteConfig],
    pub country: &'a CountryPolicyConfig,
    pub paths: Option<&'a [String]>,
    pub keep_lists: bool,
    pub mode: Option<Mode>,
    pub domains: Option<&'a [String]>,
    pub default_action: Option<Action>,
    pub filtering_enabled: Option<bool>,
    pub disabled: Option<&'a [String]>,
    pub admission: Option<&'a AdmissionConfig>,
}

pub open spec fn list_view(list: Option<&[String]>) -> Option<Seq<Seq<char>>> {
    match list {
        Some(value) => Some(texts(value@)),
        None => None,
    }
}

impl<'a> View for PolicyBundle<'a> {
    type V = BundleView;

    open spec fn view(&self) -> BundleView {
        BundleView {
            rules: rule_views(self.rules@),
            regex_rules: regex_views(self.regex_rules@),
            profiles: profile_views(self.profiles@),
            client_groups: group_views(self.client_groups@),
            client_identities: identity_views(self.client_identities@),
            rewrites: rewrite_views(self.rewrites@),
            country: self.country@,
            paths: list_view(self.paths),
            keep_lists: self.keep_lists,
            mode: self.mode,
            domains: list_view(self.domains),
            default_action: self.default_action,
            filtering_enabled: self.filtering_enabled,
            disabled: list_view(self.disabled),
            admission: match self.admission {
                Some(value) => Some(value@),
                None => None,
            },
        }
    }
}

/// What a bundle compiles to.
pub struct CompiledView {
    pub domains: Option<Seq<Seq<char>>>,
    pub base: Seq<RuleView>,
    pub rewrites: Answers,
    pub country: Option<CountryPolicyView>,
    pub paths: Seq<Seq<char>>,
    pub disabled: Set<Seq<char>>,
    pub lists: Seq<RuleView>,
    pub regex_rules: Seq<RegexMeaning>,
    pub reference: Seq<Meaning>,
}

pub open spec fn limits_fault(admission: Option<AdmissionView>, inflight: usize) -> Option<ErrorView> {
    match admission {
        Some(limits) => match replacement_fault(limits, inflight) {
            Some(reason) => Some(admission_error(reason)),
            None => None,
        },
        None => None,
    }
}

pub open spec fn domains_of(domains: Option<Seq<Seq<char>>>) -> Result<
    Option<Seq<Seq<char>>>,
    ErrorView,
> {
    match domains {
        Some(list) => match legacy_domains(list) {
            Ok(normal) => Ok(Some(normal)),
            Err(error) => Err(error),
        },
        None => Ok(None),
    }
}

pub open spec fn configured_paths(tables: TablesView, bundle: BundleView) -> Seq<Seq<char>> {
    match bundle.paths {
        Some(paths) => paths,
        None => tables.blocklist_paths,
    }
}

pub open spec fn configured_disabled(tables: TablesView, bundle: BundleView) -> Seq<Seq<char>> {
    match bundle.disabled {
        Some(list) => list,
        None => sorted(tables.disabled_paths),
    }
}

/// The filter rules that a bundle leads to: those that are loaded, or those of the sources as they
/// read now.
pub open spec fn bundle_lists(tables: TablesView, bundle: BundleView, files: Seq<SourceView>) -> Result<
    Seq<RuleView>,
    ErrorView,
> {
    if bundle.keep_lists {
        Ok(tables.blocklist_rules)
    } else {
        match active_paths(configured_paths(tables, bundle), configured_disabled(tables, bundle)) {
            Err(error) => Err(error),
            Ok(active) => rules_at(files, active),
        }
    }
}

/// What a bundle compiles to, or the first thing that is wrong with it.
pub open spec fn bundle_compiled(
    tables: TablesView,
    bundle: BundleView,
    files: Seq<SourceView>,
    source: CountrySource,
    inflight: usize,
) -> Result<CompiledView, ErrorView> {
    match limits_fault(bundle.admission, inflight) {
        Some(error) => Err(error),
        None => match domains_of(bundle.domains) {
            Err(error) => Err(error),
            Ok(domains) => match compiled_profiles(bundle.profiles, bundle.client_groups) {
                Err(error) => Err(error),
                Ok(generated) => match identities_fault(bundle.client_identities) {
                    Some(error) => Err(error),
                    None => match compiled_rewrites(bundle.rewrites) {
                        Err(error) => Err(error),
                        Ok(rewrites) => match loaded(bundle.country, source) {
                            Err(error) => Err(error),
                            Ok(country) => match bundle_lists(tables, bundle, files) {
                                Err(error) => Err(error),
                                Ok(lists) => {
                                    let base = bundle.rules + generated;
                                    let all = base + lists;
                                    match compiled_regex(bundle.regex_rules, ids_of(all)) {
                                        Err(error) => Err(error),
                                        Ok(regex_rules) => match compiled_policy(all) {
                                            Err(error) => Err(error),
                                            Ok(reference) => Ok(
                                                CompiledView {
                                                    domains,
                                                    base,
                                                    rewrites,
                                                    country,
                                                    paths: configured_paths(tables, bundle),
                                                    disabled: match bundle.disabled {
                                                        Some(list) => list.to_set(),
                                                        None => tables.disabled_paths,
                                                    },
                                                    lists,
                                                    regex_rules,
                                                    reference,
                                                },
                                            ),
                                        },
                                    }
                                },
                            },
                        },
                    },
                },
            },
        },
    }
}

/// The given value, or the one in force.
pub open spec fn or_kept<T>(given: Option<T>, kept: T) -> T {
    match given {
        Some(value) => value,
        None => kept,
    }
}

/// Whether everything that a bundle says is in force already.
pub open spec fn bundle_in_force(
    tables: TablesView,
    bundle: BundleView,
    compiled: CompiledView,
) -> bool {
    &&& tables.base_rules == compiled.base
    &&& tables.explicit_rules == bundle.rules
    &&& published_rules(tables.regex_rules) == bundle.regex_rules
    &&& tables.profiles == bundle.profiles
    &&& tables.client_groups == bundle.client_groups
    &&& tables.client_identities == bundle.client_identities
    &&& tables.rewrite_configs == bundle.rewrites
    &&& tables.country_config == bundle.country
    &&& tables.country == compiled.country
    &&& tables.blocklist_rules == compiled.lists
    &&& tables.blocklist_paths == compiled.paths
    &&& tables.disabled_paths == compiled.disabled
    &&& or_kept(bundle.admission, tables.admission) == tables.admission
    &&& or_kept(compiled.domains, tables.legacy_domains) == tables.legacy_domains
    &&& or_kept(bundle.mode, tables.legacy_mode) == tables.legacy_mode
    &&& or_kept(bundle.default_action, tables.default_action) == tables.default_action
    &&& or_kept(bundle.filtering_enabled, tables.filtering_enabled) == tables.filtering_enabled
}

/// The tables with a bundle in force.
pub open spec fn with_bundle(
    tables: TablesView,
    bundle: BundleView,
    compiled: CompiledView,
) -> TablesView {
    renewed(
        TablesView {
            base_rules: compiled.base,
            explicit_rules: bundle.rules,
            blocklist_rules: compiled.lists,
            blocklist_paths: compiled.paths,
            disabled_paths: compiled.disabled,
            profiles: bundle.profiles,
            client_groups: bundle.client_groups,
            client_identities: bundle.client_identities,
            country: compiled.country,
            country_config: bundle.country,
            legacy_domains: or_kept(compiled.domains, tables.legacy_domains),
            legacy_mode: or_kept(bundle.mode, tables.legacy_mode),
            default_action: or_kept(bundle.default_action, tables.default_action),
            filtering_enabled: or_kept(bundle.filtering_enabled, tables.filtering_enabled),
            rewrite_configs: bundle.rewrites,
            rewrites: compiled.rewrites,
            reference: compiled.reference,
            regex_rules: compiled.regex_rules,
            admission: or_kept(bundle.admission, tables.admission),
            ..tables
        },
    )
}

/// Replacing the whole policy.
pub open spec fn bundle_replaced(
    tables: TablesView,
    bundle: BundleView,
    files: Seq<SourceView>,
    source: CountrySource,
    inflight: usize,
) -> Change {
    match bundle_compiled(tables, bundle, files, source, inflight) {
        Err(error) => Err(error),
        Ok(compiled) => if bundle_in_force(tables, bundle, compiled) {
            Ok((ReloadState::Unchanged, tables))
        } else {
            Ok((ReloadState::Published, with_bundle(tables, bundle, compiled)))
        },
    }
}

// ---- compiling -----------------------------------------------------------------------

/// A checked bundle.
struct Compiled {
    domains: Option<Vec<String>>,
    base: Vec<RuleConfig>,
    rewrites: RewriteTable,
    country: Option<CountryPolicy>,
    paths: Vec<String>,
    disabled: TextSet,
    lists: Vec<RuleConfig>,
    regex_rules: RegexRules,
    reference: ReferencePolicy,
}

impl Compiled {
    spec fn value(&self) -> CompiledView {
        CompiledView {
            domains: match self.domains {
                Some(list) => Some(texts(list@)),
                None => None,
            },
            base: rule_views(self.base@),
            rewrites: self.rewrites@,
            country: country_view(self.country),
            paths: texts(self.paths@),
            disabled: self.disabled@,
            lists: rule_views(self.lists@),
            regex_rules: self.regex_rules@,
            reference: self.reference@,
        }
    }

    spec fn wf(&self) -> bool {
        &&& self.rewrites.wf()
        &&& self.country is Some ==> self.country->0.wf()
        &&& self.disabled.wf()
        &&& self.regex_rules.wf()
    }
}

fn check_limits(admission: Option<&AdmissionConfig>, inflight: usize) -> (r: Result<(), PolicyError>)
    ensures
        match limits_fault(
            match admission {
                Some(value) => Some(value@),
                None => None,
            },
            inflight,
        ) {
            Some(error) => r is Err && r->Err_0@ == error,
            None => r is Ok,
        },
{
    match admission {
        Some(limits) => validate_admission(limits, inflight),
        None => Ok(()),
    }
}

fn check_domains(domains: Option<&[String]>) -> (r: Result<Option<Vec<String>>, PolicyError>)
    ensures
        match domains_of(list_view(domains)) {
            Ok(None) => r is Ok && r->Ok_0 is None,
            Ok(Some(list)) => r is Ok && r->Ok_0 is Some && texts(r->Ok_0->0@) == list,
            Err(error) => r is Err && r->Err_0@ == error,
        },
{
    match domains {
        Some(list) => match validate_legacy_domains(list) {
            Ok(normal) => Ok(Some(normal)),
            Err(error) => Err(error),
        },
        None => Ok(None),
    }
}

/// The sources that a bundle configures: their paths, the disabled ones, and their rules.
fn compile_lists(tables: &Tables, bundle: &PolicyBundle<'_>, files: &[BlocklistSource]) -> (r: Result<
    (Vec<String>, TextSet, Vec<RuleConfig>),
    PolicyError,
>)
    requires
        tables.disabled_blocklist_paths.wf(),
    ensures
        match bundle_lists(tables@, bundle@, source_views(files@)) {
            Err(error) => r is Err && r->Err_0@ == error,
            Ok(lists) => {
                &&& r is Ok
                &&& texts(r->Ok_0.0@) == configured_paths(tables@, bundle@)
                &&& r->Ok_0.1.wf()
                &&& r->Ok_0.1@ == (match bundle@.disabled {
                    Some(list) => list.to_set(),
                    None => tables@.disabled_paths,
                })
                &&& rule_views(r->Ok_0.2@) == lists
            },
        },
{
    let paths = match bundle.paths {
        Some(list) => copy_texts(list),
        None => copy_texts(&tables.blocklist_paths),
    };
    let off = match bundle.disabled {
        Some(list) => copy_texts(list),
        None => tables.disabled_blocklist_paths.to_list(),
    };
    let disabled = match bundle.disabled {
        Some(list) => TextSet::from_list(list),
        None => tables.disabled_blocklist_paths.copied(),
    };
    if bundle.keep_lists {
        let lists = copy_items(&tables.blocklist_rules);
        assert(rule_views(lists@) =~= tables@.blocklist_rules);
        return Ok((paths, disabled, lists));
    }
    match active_blocklist_paths(&paths, &off) {
        Err(error) => Err(error),
        Ok(active) => match load_blocklists_at(files, &active) {
            Err(error) => Err(error),
            Ok(lists) => Ok((paths, disabled, lists)),
        },
    }
}

fn compile_bundle(
    tables: &Tables,
    bundle: &PolicyBundle<'_>,
    files: &[BlocklistSource],
    source: &CountrySource,
    inflight: usize,
) -> (r: Result<Compiled, PolicyError>)
    requires
        tables.disabled_blocklist_paths.wf(),
    ensures
        match bundle_compiled(tables@, bundle@, source_views(files@), *source, inflight) {
            Err(error) => r is Err && r->Err_0@ == error,
            Ok(compiled) => r is Ok && r->Ok_0.value() == compiled && r->Ok_0.wf(),
        },
{
    match check_limits(bundle.admission, inflight) {
        Ok(()) => {},
        Err(error) => {
            return Err(error);
        },
    }
    let domains = match check_domains(bundle.domains) {
        Ok(domains) => domains,
        Err(error) => {
            return Err(error);
        },
    };
    let generated = match compile_profiles(bundle.profiles, bundle.client_groups) {
        Ok(generated) => generated,
        Err(error) => {
            return Err(error);
        },
    };
    match validate_client_identities(bundle.client_identities) {
        Ok(_) => {},
        Err(error) => {
            return Err(error);
        },
    }
    let rewrites = match compile_rewrites(bundle.rewrites) {
        Ok(rewrites) => rewrites,
        Err(error) => {
            return Err(error);
        },
    };
    let country = match load_country_policy(bundle.country, source) {
        Ok(country) => country,
        Err(error) => {
            return Err(error);
        },
    };
    let (paths, disabled, lists) = match compile_lists(tables, bundle, files) {
        Ok(found) => found,
        Err(error) => {
            return Err(error);
        },
    };
    let mut base = copy_items(bundle.rules);
    append_items(&mut base, &generated);
    let mut all = copy_items(&base);
    append_items(&mut all, &lists);
    let ids = rule_ids(&all);
    let regex_rules = match compile_regex_rules(bundle.regex_rules, &ids) {
        Ok(rules) => rules,
        Err(error) => {
            return Err(error);
        },
    };
    let reference = match ReferencePolicy::new(&all) {
        Ok(reference) => reference,
        Err(error) => {
            return Err(error);
        },
    };
    Ok(
        Compiled {
            domains,
            base,
            rewrites,
            country,
            paths,
            disabled,
            lists,
            regex_rules,
            reference,
        },
    )
}

fn same_lists(tables: &Tables, bundle: &PolicyBundle<'_>, compiled: &Compiled) -> (r: bool)
    requires
        tables.parts_wf(),
        compiled.wf(),
    ensures
        r == (tables@.base_rules == compiled.value().base && tables@.explicit_rules
            == bundle@.rules && published_rules(tables@.regex_rules) == bundle@.regex_rules
            && tables@.profiles == bundle@.profiles && tables@.client_groups
            == bundle@.client_groups && tables@.client_identities == bundle@.client_identities
            && tables@.rewrite_configs == bundle@.rewrites),
{
    same_items(&tables.base_rules, &compiled.base) && same_items(
        &tables.explicit_rules,
        bundle.rules,
    ) && same_items(&tables.regex_rules.regex_rule_configs(), bundle.regex_rules) && same_items(
        &tables.profiles,
        bundle.profiles,
    ) && same_items(&tables.client_groups, bundle.client_groups) && same_items(
        &tables.client_identities,
        bundle.client_identities,
    ) && same_items(&tables.rewrite_configs, bundle.rewrites)
}

fn same_sources(tables: &Tables, bundle: &PolicyBundle<'_>, compiled: &Compiled) -> (r: bool)
    requires
        tables.parts_wf(),
        compiled.wf(),
    ensures
        r == (tables@.country_config == bundle@.country && tables@.country
            == compiled.value().country && tables@.blocklist_rules == compiled.value().lists
            && tables@.blocklist_paths == compiled.value().paths && tables@.disabled_paths
            == compiled.value().disabled),
{
    tables.country_policy_config.same_as(bundle.country) && same_country(
        &tables.country_policy,
        &compiled.country,
    ) && same_items(&tables.blocklist_rules, &compiled.lists) && same_texts(
        &tables.blocklist_paths,
        &compiled.paths,
    ) && tables.disabled_blocklist_paths.same_as(&compiled.disabled)
}

fn same_switches(tables: &Tables, bundle: &PolicyBundle<'_>, compiled: &Compiled) -> (r: bool)
    ensures
        r == (or_kept(bundle@.admission, tables@.admission) == tables@.admission && or_kept(
            compiled.value().domains,
            tables@.legacy_domains,
        ) == tables@.legacy_domains && or_kept(bundle@.mode, tables@.legacy_mode)
            == tables@.legacy_mode && or_kept(bundle@.default_action, tables@.default_action)
            == tables@.default_action && or_kept(
            bundle@.filtering_enabled,
            tables@.filtering_enabled,
        ) == tables@.filtering_enabled),
{
    let limits = match bundle.admission {
        Some(next) => tables.admission.same_as(next),
        None => true,
    };
    let domains = match &compiled.domains {
        Some(next) => same_texts(&tables.legacy_domains, next),
        None => true,
    };
    let mode = match bundle.mode {
        Some(next) => tables.legacy_mode == next,
        None => true,
    };
    let action = match bundle.default_action {
        Some(next) => tables.default_action == next,
        None => true,
    };
    let filtering = match bundle.filtering_enabled {
        Some(next) => tables.filtering_enabled == next,
        None => true,
    };
    limits && domains && mode && action && filtering
}

impl Tables {
    /// Puts a checked bundle in force.
    fn install(&mut self, bundle: &PolicyBundle<'_>, compiled: Compiled)
        requires
            old(self).wf(),
            compiled.wf(),
        ensures
            final(self)@ == with_bundle(old(self)@, bundle@, compiled.value()),
            final(self).parts_wf(),
    {
        self.base_rules = compiled.base;
        self.explicit_rules = copy_items(bundle.rules);
        self.blocklist_rules = compiled.lists;
        self.blocklist_paths = compiled.paths;
        self.disabled_blocklist_paths = compiled.disabled;
        self.profiles = copy_items(bundle.profiles);
        self.client_groups = copy_items(bundle.client_groups);
        self.client_identities = copy_items(bundle.client_identities);
        self.country_policy = compiled.country;
        self.country_policy_config = bundle.country.copied();
        self.rewrite_configs = copy_items(bundle.rewrites);
        self.rewrites = compiled.rewrites;
        self.reference = compiled.reference;
        self.regex_rules = compiled.regex_rules;
        match compiled.domains {
            Some(domains) => {
                self.legacy_domains = domains;
            },
            None => {},
        }
        match bundle.mode {
            Some(mode) => {
                self.legacy_mode = mode;
            },
            None => {},
        }
        match bundle.default_action {
            Some(action) => {
                self.default_action = action;
            },
            None => {},
        }
        match bundle.filtering_enabled {
            Some(enabled) => {
                self.filtering_enabled = enabled;
            },
            None => {},
        }
        match bundle.admission {
            Some(limits) => {
                self.admission = limits.copied();
            },
            None => {},
        }
        self.renew();
    }
}

/// A bundle in force leaves the tables as they must be.
pub proof fn bundles_are_consistent(
    tables: TablesView,
    bundle: BundleView,
    files: Seq<SourceView>,
    source: CountrySource,
    inflight: usize,
)
    requires
        bundle_compiled(tables, bundle, files, source, inflight) is Ok,
        all_normal(tables.legacy_domains),
    ensures
        ({
            let compiled = bundle_compiled(tables, bundle, files, source, inflight)->Ok_0;
            let next = with_bundle(tables, bundle, compiled);
            compiled_from(next) && expanded_from(next)
        }),
{
    let compiled = bundle_compiled(tables, bundle, files, source, inflight)->Ok_0;
    let next = with_bundle(tables, bundle, compiled);
    compiled_regex_does_not_clash(published(next), bundle.regex_rules);
    if let Some(list) = bundle.domains {
        accepted_domains_are_normal(list);
    }
}

impl Policy {
    /// Replaces the whole policy.
    pub fn apply_bundle(
        &mut self,
        bundle: &PolicyBundle<'_>,
        files: &[BlocklistSource],
        source: &CountrySource,
    ) -> (r: Result<ReloadState, PolicyError>)
        requires
            old(self).wf(),
        ensures
            performed(
                bundle_replaced(
                    old(self).tables@,
                    bundle@,
                    source_views(files@),
                    *source,
                    old(self).config.admission.max_inflight_requests,
                ),
                old(self).tables@,
                final(self).tables@,
                r,
            ),
            final(self).only_tables(old(self)),
            final(self).wf(),
    {
        let inflight: usize = self.config.admission.max_inflight_requests;
        let compiled = match compile_bundle(&self.tables, bundle, files, source, inflight) {
            Ok(compiled) => compiled,
            Err(error) => {
                return Err(error);
            },
        };
        if same_lists(&self.tables, bundle, &compiled) && same_sources(
            &self.tables,
            bundle,
            &compiled,
        ) && same_switches(&self.tables, bundle, &compiled) {
            return Ok(ReloadState::Unchanged);
        }
        proof {
            bundles_are_consistent(
                self.tables@,
                bundle@,
                source_views(files@),
                *source,
                inflight,
            );
        }
        self.tables.install(bundle, compiled);
        Ok(ReloadState::Published)
    }

    /// Replaces the tables that operators edit. The switches, the limits and the disabled
    /// sources stay, the identities are emptied, and without other sources the loaded filter
    /// rules are retained.
    pub fn reload_policy_bundle(
        &mut self,
        rules: &[RuleConfig],
        regex_configs: &[RegexRuleConfig],
        profiles: &[ServiceProfileConfig],
        client_groups: &[ClientGroupConfig],
        rewrite_configs: &[RewriteConfig],
        country_config: &CountryPolicyConfig,
        blocklist_paths: Option<&[String]>,
        files: &[BlocklistSource],
        source: &CountrySource,
    ) -> (r: Result<ReloadState, PolicyError>)
        requires
            old(self).wf(),
        ensures
            performed(
                bundle_replaced(
                    old(self).tables@,
                    (BundleView {
                        rules: rule_views(rules@),
                        regex_rules: regex_views(regex_configs@),
                        profiles: profile_views(profiles@),
                        client_groups: group_views(client_groups@),
                        client_identities: Seq::empty(),
                        rewrites: rewrite_views(rewrite_configs@),
                        country: country_config@,
                        paths: list_view(blocklist_paths),
                        keep_lists: blocklist_paths is None,
                        mode: None,
                        domains: None,
                        default_action: None,
                        filtering_enabled: None,
                        disabled: None,
                        admission: None,
                    }),
                    source_views(files@),
                    *source,
                    old(self).config.admission.max_inflight_requests,
                ),
                old(self).tables@,
                final(self).tables@,
                r,
            ),
            final(self).only_tables(old(self)),
            final(self).wf(),
    {
        let nobody: Vec<ClientIdentityConfig> = Vec::new();
        assert(identity_views(nobody@) =~= Seq::<IdentityView>::empty());
        let bundle = PolicyBundle {
            rules,
            regex_rules: regex_configs,
            profiles,
            client_groups,
            client_identities: &nobody,
            rewrites: rewrite_configs,
            country: country_config,
            paths: blocklist_paths,
            keep_lists: blocklist_paths.is_none(),
            mode: None,
            domains: None,
            default_action: None,
            filtering_enabled: None,
            disabled: None,
            admission: None,
        };
        self.apply_bundle(&bundle, files, source)
    }

    /// Replaces the tables that operators edit and, where they are given, the switches and the
    /// sources.
    pub fn reload_policy_bundle_with_legacy(
        &mut self,
        rules: &[RuleConfig],
        regex_configs: &[RegexRuleConfig],
        profiles: &[ServiceProfileConfig],
        client_groups: &[ClientGroupConfig],
        client_identities: &[ClientIdentityConfig],
        rewrite_configs: &[RewriteConfig],
        country_config: &CountryPolicyConfig,
        blocklist_paths: Option<&[String]>,
        legacy_mode: Option<Mode>,
        legacy_domains: Option<&[String]>,
        default_action: Option<Action>,
        filtering_enabled: Option<bool>,
        disabled_blocklists: Option<&[String]>,
        files: &[BlocklistSource],
        source: &CountrySource,
    ) -> (r: Result<ReloadState, PolicyError>)
        requires
            old(self).wf(),
        ensures
            performed(
                bundle_replaced(
                    old(self).tables@,
                    (BundleView {
                        rules: rule_views(rules@),
                        regex_rules: regex_views(regex_configs@),
                        profiles: profile_views(profiles@),
                        client_groups: group_views(client_groups@),
                        client_identities: identity_views(client_identities@),
                        rewrites: rewrite_views(rewrite_configs@),
                        country: country_config@,
                        paths: list_view(blocklist_paths),
                        keep_lists: false,
                        mode: legacy_mode,
                        domains: list_view(legacy_domains),
                        default_action,
                        filtering_enabled,
                        disabled: list_view(disabled_blocklists),
                        admission: None,
                    }),
                    source_views(files@),
                    *source,
                    old(self).config.admission.max_inflight_requests,
                ),
                old(self).tables@,
                final(self).tables@,
                r,
            ),
            final(self).only_tables(old(self)),
            final(self).wf(),
    {
        self.reload_policy_bundle_with_legacy_and_admission(
            rules,
            regex_configs,
            profiles,
            client_groups,
            client_identities,
            rewrite_configs,
            country_config,
            blocklist_paths,
            legacy_mode,
            legacy_domains,
            default_action,
            filtering_enabled,
            disabled_blocklists,
            None,
            files,
            source,
        )
    }

    /// Replaces the tables that operators edit and, where they are given, the switches, the
    /// sources and the limits.
    pub fn reload_policy_bundle_with_legacy_and_admission(
        &mut self,
        rules: &[RuleConfig],
        regex_configs: &[RegexRuleConfig],
        profiles: &[ServiceProfileConfig],
        client_groups: &[ClientGroupConfig],
        client_identities: &[ClientIdentityConfig],
        rewrite_configs: &[RewriteConfig],
        country_config: &CountryPolicyConfig,
        blocklist_paths: Option<&[String]>,
        legacy_mode: Option<Mode>,
        legacy_domains: Option<&[String]>,
        default_action: Option<Action>,
        filtering_enabled: Option<bool>,
        disabled_blocklists: Option<&[String]>,
        admission: Option<&AdmissionConfig>,
        files: &[BlocklistSource],
        source: &CountrySource,
    ) -> (r: Result<ReloadState, PolicyError>)
        requires
            old(self).wf(),
        ensures
            performed(
                bundle_replaced(
                    old(self).tables@,
                    (BundleView {
                        rules: rule_views(rules@),
                        regex_rules: regex_views(regex_configs@),
                        profiles: profile_views(profiles@),
                        client_groups: group_views(client_groups@),
                        client_identities: identity_views(client_identities@),
                        rewrites: rewrite_views(rewrite_configs@),
                        country: country_config@,
                        paths: list_view(blocklist_paths),
                        keep_lists: false,
                        mode: legacy_mode,
                        domains: list_view(legacy_domains),
                        default_action,
                        filtering_enabled,
                        disabled: list_view(disabled_blocklists),
                        admission: (match admission {
                            Some(value) => Some(value@),
                            None => None,
                        }),
                    }),
                    source_views(files@),
                    *source,
                    old(self).config.admission.max_inflight_requests,
                ),
                old(self).tables@,
                final(self).tables@,
                r,
            ),
            final(self).only_tables(old(self)),
            final(self).wf(),
    {
        let bundle = PolicyBundle {
            rules,
            regex_rules: regex_configs,
            profiles,
            client_groups,
            client_identities,
            rewrites: rewrite_configs,
            country: country_config,
            paths: blocklist_paths,
            keep_lists: false,
            mode: legacy_mode,
            domains: legacy_domains,
            default_action,
            filtering_enabled,
            disabled: disabled_blocklists,
            admission,
        };
        self.apply_bundle(&bundle, files, source)
    }

    /// Checks a whole policy without publishing it.
    pub fn validate_policy_bundle_with_legacy_and_admission(
        &self,
        rules: &[RuleConfig],
        regex_configs: &[RegexRuleConfig],
        profiles: &[ServiceProfileConfig],
        client_groups: &[ClientGroupConfig],
        client_identities: &[ClientIdentityConfig],
        rewrite_configs: &[RewriteConfig],
        country_config: &CountryPolicyConfig,
        blocklist_paths: Option<&[String]>,
        legacy_mode: Option<Mode>,
        legacy_domains: Option<&[String]>,
        default_action: Option<Action>,
        filtering_enabled: Option<bool>,
        disabled_blocklists: Option<&[String]>,
        admission: Option<&AdmissionConfig>,
        files: &[BlocklistSource],
        source: &CountrySource,
    ) -> (r: Result<(), PolicyError>)
        requires
            self.wf(),
        ensures
            match bundle_compiled(
                self.tables@,
                (BundleView {
                    rules: rule_views(rules@),
                    regex_rules: regex_views(regex_configs@),
                    profiles: profile_views(profiles@),
                    client_groups: group_views(client_groups@),
                    client_identities: identity_views(client_identities@),
                    rewrites: rewrite_views(rewrite_configs@),
                    country: country_config@,
                    paths: list_view(blocklist_paths),
                    keep_lists: false,
                    mode: legacy_mode,
                    domains: list_view(legacy_domains),
                    default_action,
                    filtering_enabled,
                    disabled: list_view(disabled_blocklists),
                    admission: (match admission {
                        Some(value) => Some(value@),
                        None => None,
                    }),
                }),
                source_views(files@),
                *source,
                self.config.admission.max_inflight_requests,
            ) {
                Ok(_) => r is Ok,
                Err(error) => r is Err && r->Err_0@ == error,
            },
    {
        let bundle = PolicyBundle {
            rules,
            regex_rules: regex_configs,
            profiles,
            client_groups,
            client_identities,
            rewrites: rewrite_configs,
            country: country_config,
            paths: blocklist_paths,
            keep_lists: false,
            mode: legacy_mode,
            domains: legacy_domains,
            default_action,
            filtering_enabled,
            disabled: disabled_blocklists,
            admission,
        };
        match compile_bundle(
            &self.tables,
            &bundle,
            files,
            source,
            self.config.admission.max_inflight_requests,
        ) {
            Ok(_) => Ok(()),
            Err(error) => Err(error),
        }
    }
}

// ---- the configuration file ----------------------------------------------------------

pub open spec fn same_admin(a: AdminConfig, b: AdminConfig) -> bool {
    text_of(a.listen) == text_of(b.listen) && text_of(a.token) == text_of(b.token)
}

pub open spec fn same_upstream(a: Option<UpstreamConfig>, b: Option<UpstreamConfig>) -> bool {
    match (a, b) {
        (Some(x), Some(y)) => x.same(&y),
        (None, None) => true,
        _ => false,
    }
}

pub open spec fn same_capture(a: CaptureConfig, b: CaptureConfig) -> bool {
    &&& a.enabled == b.enabled
    &&& a.inbound_port == b.inbound_port
    &&& a.chain@ == b.chain@
    &&& a.mark == b.mark
    &&& a.ownership_path@ == b.ownership_path@
    &&& a.original_destination@ == b.original_destination@
}

pub open spec fn same_dhcp(a: DhcpConfig, b: DhcpConfig) -> bool {
    &&& a.enabled == b.enabled
    &&& a.listen@ == b.listen@
    &&& a.server@ == b.server@
    &&& a.subnet_mask@ == b.subnet_mask@
    &&& a.pool_start@ == b.pool_start@
    &&& a.pool_end@ == b.pool_end@
    &&& text_of(a.router) == text_of(b.router)
    &&& text_of(a.dns) == text_of(b.dns)
    &&& texts(a.dns_servers@) == texts(b.dns_servers@)
    &&& text_of(a.domain_name) == text_of(b.domain_name)
    &&& a.lease_secs == b.lease_secs
    &&& a.max_leases == b.max_leases
}

/// The settings of listeners, transports, storage, capture and services are the same.
pub open spec fn same_services(a: Config, b: Config) -> bool {
    &&& a.server.listen@ == b.server.listen@
    &&& same_admin(a.admin, b.admin)
    &&& a.honeypot == b.honeypot
    &&& same_upstream(a.upstream, b.upstream)
    &&& a.cache == b.cache
    &&& a.security == b.security
    &&& a.privacy.same_startup(&b.privacy)
    &&& same_capture(a.capture, b.capture)
    &&& same_dhcp(a.dhcp, b.dhcp)
}

/// The capacities and intervals are the same.
pub open spec fn same_capacities(a: Config, b: Config) -> bool {
    &&& a.admission.max_inflight_requests == b.admission.max_inflight_requests
    &&& a.admission.ddos.persist_incidents == b.admission.ddos.persist_incidents
    &&& a.policy.blocklist_reload_interval_secs == b.policy.blocklist_reload_interval_secs
    &&& a.country_policy.reload_interval_secs == b.country_policy.reload_interval_secs
    &&& a.reload_interval_secs == b.reload_interval_secs
}

fn has_same_services(a: &Config, b: &Config) -> (r: bool)
    ensures
        r == same_services(*a, *b),
{
    let upstream = match (&a.upstream, &b.upstream) {
        (Some(x), Some(y)) => x.same_as(y),
        (None, None) => true,
        _ => false,
    };
    let admin = same_option(&a.admin.listen, &b.admin.listen) && same_option(
        &a.admin.token,
        &b.admin.token,
    );
    let capture = a.capture.enabled == b.capture.enabled && a.capture.inbound_port
        == b.capture.inbound_port && same_str(a.capture.chain.as_str(), b.capture.chain.as_str())
        && a.capture.mark == b.capture.mark && same_str(
        a.capture.ownership_path.as_str(),
        b.capture.ownership_path.as_str(),
    ) && same_str(
        a.capture.original_destination.as_str(),
        b.capture.original_destination.as_str(),
    );
    let dhcp = a.dhcp.enabled == b.dhcp.enabled && same_str(
        a.dhcp.listen.as_str(),
        b.dhcp.listen.as_str(),
    ) && same_str(a.dhcp.server.as_str(), b.dhcp.server.as_str()) && same_str(
        a.dhcp.subnet_mask.as_str(),
        b.dhcp.subnet_mask.as_str(),
    ) && same_str(a.dhcp.pool_start.as_str(), b.dhcp.pool_start.as_str()) && same_str(
        a.dhcp.pool_end.as_str(),
        b.dhcp.pool_end.as_str(),
    ) && same_option(&a.dhcp.router, &b.dhcp.router) && same_option(&a.dhcp.dns, &b.dhcp.dns)
        && same_texts(&a.dhcp.dns_servers, &b.dhcp.dns_servers) && same_option(
        &a.dhcp.domain_name,
        &b.dhcp.domain_name,
    ) && a.dhcp.lease_secs == b.dhcp.lease_secs && a.dhcp.max_leases == b.dhcp.max_leases;
    same_str(a.server.listen.as_str(), b.server.listen.as_str()) && admin && a.honeypot
        == b.honeypot && upstream && a.cache == b.cache && a.security == b.security
        && a.privacy.has_same_startup(&b.privacy) && capture && dhcp
}

/// The policy that a configuration holds.
pub open spec fn bundle_of(config: Config) -> BundleView {
    BundleView {
        rules: rule_views(config.policy.rules@),
        regex_rules: regex_views(config.policy.regex_rules@),
        profiles: profile_views(config.policy.profiles@),
        client_groups: group_views(config.policy.client_groups@),
        client_identities: identity_views(config.policy.client_identities@),
        rewrites: rewrite_views(config.policy.rewrites@),
        country: config.country_policy@,
        paths: Some(texts(config.policy.blocklists@)),
        keep_lists: false,
        mode: Some(config.policy.mode),
        domains: Some(texts(config.policy.domains@)),
        default_action: Some(config.policy.default_action),
        filtering_enabled: Some(config.policy.filtering_enabled),
        disabled: Some(texts(config.policy.disabled_blocklists@)),
        admission: Some(config.admission@),
    }
}

/// Reading the configuration again: only the policy in it may differ.
pub open spec fn config_reloaded(
    config: Config,
    tables: TablesView,
    next: Config,
    files: Seq<SourceView>,
    source: CountrySource,
) -> Change {
    let redaction = next.privacy.query_recording_redaction;
    if !same_services(next, config) {
        Err(
            ErrorView::InvalidConfigReload {
                reason:
                    "startup-only listener, transport, storage, capture, or service settings changed"@,
            },
        )
    } else if !same_capacities(next, config) {
        Err(
            ErrorView::InvalidConfigReload {
                reason:
                    "startup-only capacity, incident-persistence, or reload interval settings changed"@,
            },
        )
    } else {
        match bundle_replaced(
            tables,
            bundle_of(next),
            files,
            source,
            config.admission.max_inflight_requests,
        ) {
            Err(error) => Err(error),
            Ok((ReloadState::Published, after)) => Ok(
                (ReloadState::Published, TablesView { redaction, ..after }),
            ),
            Ok((ReloadState::Unchanged, after)) => if redaction != tables.redaction {
                Ok((ReloadState::Published, counted(TablesView { redaction, ..after })))
            } else {
                Ok((ReloadState::Unchanged, after))
            },
        }
    }
}

impl Policy {
    /// Reads the configuration again: only the policy in it may differ.
    pub fn reload_config(
        &mut self,
        next: &Config,
        files: &[BlocklistSource],
        source: &CountrySource,
    ) -> (r: Result<ReloadState, PolicyError>)
        requires
            old(self).wf(),
        ensures
            performed(
                config_reloaded(
                    old(self).config,
                    old(self).tables@,
                    *next,
                    source_views(files@),
                    *source,
                ),
                old(self).tables@,
                final(self).tables@,
                r,
            ),
            final(self).only_tables(old(self)),
            final(self).wf(),
    {
        if !has_same_services(next, &self.config) {
            return Err(
                PolicyError::InvalidConfigReload {
                    reason:
                        "startup-only listener, transport, storage, capture, or service settings changed".to_owned(),
                },
            );
        }
        if next.admission.max_inflight_requests != self.config.admission.max_inflight_requests
            || next.admission.ddos.persist_incidents
            != self.config.admission.ddos.persist_incidents
            || next.policy.blocklist_reload_interval_secs
            != self.config.policy.blocklist_reload_interval_secs
            || next.country_policy.reload_interval_secs
            != self.config.country_policy.reload_interval_secs || next.reload_interval_secs
            != self.config.reload_interval_secs {
            return Err(
                PolicyError::InvalidConfigReload {
                    reason:
                        "startup-only capacity, incident-persistence, or reload interval settings changed".to_owned(),
                },
            );
        }
        let bundle = PolicyBundle {
            rules: &next.policy.rules,
            regex_rules: &next.policy.regex_rules,
            profiles: &next.policy.profiles,
            client_groups: &next.policy.client_groups,
            client_identities: &next.policy.client_identities,
            rewrites: &next.policy.rewrites,
            country: &next.country_policy,
            paths: Some(next.policy.blocklists.as_slice()),
            keep_lists: false,
            mode: Some(next.policy.mode),
            domains: Some(next.policy.domains.as_slice()),
            default_action: Some(next.policy.default_action),
            filtering_enabled: Some(next.policy.filtering_enabled),
            disabled: Some(next.policy.disabled_blocklists.as_slice()),
            admission: Some(&next.admission),
        };
        assert(bundle@ == bundle_of(*next));
        let redaction = next.privacy.query_recording_redaction;
        let changed = redaction != self.tables.query_recording_redaction;
        match self.apply_bundle(&bundle, files, source) {
            Err(error) => Err(error),
            Ok(ReloadState::Published) => {
                self.tables.query_recording_redaction = redaction;
                Ok(ReloadState::Published)
            },
            Ok(ReloadState::Unchanged) => {
                if changed {
                    self.tables.query_recording_redaction = redaction;
                    self.tables.count();
                    Ok(ReloadState::Published)
                } else {
                    Ok(ReloadState::Unchanged)
                }
            },
        }
    }
}

/// What a check accepts, a publication accepts, and the other way round.
pub proof fn checked_bundles_are_publishable(
    tables: TablesView,
    bundle: BundleView,
    files: Seq<SourceView>,
    source: CountrySource,
    inflight: usize,
)
    ensures
        bundle_compiled(tables, bundle, files, source, inflight) is Ok <==> bundle_replaced(
            tables,
            bundle,
            files,
            source,
            inflight,
        ) is Ok,
{
}

/// A bundle that is in force changes nothing when it is applied again from the same sources, where
/// its rules with expressions have the form in which they are listed.
pub proof fn a_bundle_in_force_changes_nothing(
    tables: TablesView,
    bundle: BundleView,
    files: Seq<SourceView>,
    source: CountrySource,
    inflight: usize,
)
    requires
        bundle_replaced(tables, bundle, files, source, inflight) is Ok,
        forall|i: int|
            0 <= i < bundle.regex_rules.len() ==> listed_as_configured(
                #[trigger] bundle.regex_rules[i],
            ),
    ensures
        ({
            let (_, after) = bundle_replaced(tables, bundle, files, source, inflight)->Ok_0;
            bundle_replaced(after, bundle, files, source, inflight) == Ok::<_, ErrorView>(
                (ReloadState::Unchanged, after),
            )
        }),
{
    let compiled = bundle_compiled(tables, bundle, files, source, inflight)->Ok_0;
    let (_, after) = bundle_replaced(tables, bundle, files, source, inflight)->Ok_0;
    if !bundle_in_force(tables, bundle, compiled) {
        assert(after == with_bundle(tables, bundle, compiled));
        assert(configured_paths(after, bundle) == configured_paths(tables, bundle));
        assert(configured_disabled(after, bundle) == configured_disabled(tables, bundle));
        assert(bundle_compiled(after, bundle, files, source, inflight) == Ok::<_, ErrorView>(
            compiled,
        ));
        listed_rules_are_those_configured(
            bundle.regex_rules,
            ids_of(compiled.base + compiled.lists),
        );
    }
}

/// A bundle that keeps the filter rules retains those that are loaded, whatever the files hold by
/// now.
pub proof fn kept_lists_are_retained(
    tables: TablesView,
    bundle: BundleView,
    files: Seq<SourceView>,
    source: CountrySource,
    inflight: usize,
)
    requires
        bundle.keep_lists,
        bundle.paths is None,
        bundle.disabled is None,
        bundle_replaced(tables, bundle, files, source, inflight) is Ok,
    ensures
        ({
            let (_, after) = bundle_replaced(tables, bundle, files, source, inflight)->Ok_0;
            &&& after.blocklist_rules == tables.blocklist_rules
            &&& after.blocklist_paths == tables.blocklist_paths
            &&& after.disabled_paths == tables.disabled_paths
        }),
{
}

/// A bundle that was accepted is in force: each table is the one it gives, the rules of the profiles
/// and of the filter lists behind its own; what it leaves out stays as it was.
pub proof fn accepted_bundles_are_in_force(
    tables: TablesView,
    bundle: BundleView,
    files: Seq<SourceView>,
    source: CountrySource,
    inflight: usize,
)
    requires
        bundle_replaced(tables, bundle, files, source, inflight) is Ok,
    ensures
        ({
            let (outcome, after) = bundle_replaced(tables, bundle, files, source, inflight)->Ok_0;
            &&& after.explicit_rules == bundle.rules
            &&& compiled_profiles(bundle.profiles, bundle.client_groups) matches Ok(generated)
                && after.base_rules == bundle.rules + generated
            &&& after.profiles == bundle.profiles
            &&& after.client_groups == bundle.client_groups
            &&& after.client_identities == bundle.client_identities
            &&& after.rewrite_configs == bundle.rewrites
            &&& after.country_config == bundle.country
            &&& loaded(bundle.country, source) == Ok::<Option<CountryPolicyView>, ErrorView>(
                after.country,
            )
            &&& bundle.paths is Some ==> after.blocklist_paths == bundle.paths->0
            &&& bundle.paths is None ==> after.blocklist_paths == tables.blocklist_paths
            &&& bundle.disabled is Some ==> after.disabled_paths == bundle.disabled->0.to_set()
            &&& bundle.disabled is None ==> after.disabled_paths == tables.disabled_paths
            &&& bundle.mode is Some ==> after.legacy_mode == bundle.mode->0
            &&& bundle.mode is None ==> after.legacy_mode == tables.legacy_mode
            &&& bundle.domains is Some ==> legacy_domains(bundle.domains->0) == Ok::<
                Seq<Seq<char>>,
                ErrorView,
            >(after.legacy_domains)
            &&& bundle.domains is None ==> after.legacy_domains == tables.legacy_domains
            &&& bundle.default_action is Some ==> after.default_action == bundle.default_action->0
            &&& bundle.default_action is None ==> after.default_action == tables.default_action
            &&& bundle.filtering_enabled is Some ==> after.filtering_enabled
                == bundle.filtering_enabled->0
            &&& bundle.filtering_enabled is None ==> after.filtering_enabled
                == tables.filtering_enabled
            &&& bundle.admission is Some ==> after.admission == bundle.admission->0
                && replacement_fault(bundle.admission->0, inflight) is None
            &&& bundle.admission is None ==> after.admission == tables.admission
            &&& after.redaction == tables.redaction
            &&& after.cache_config == tables.cache_config
            &&& outcome == ReloadState::Unchanged ==> after == tables
            &&& outcome == ReloadState::Published ==> {
                &&& after.cache.len() == 0
                &&& after.generation == counted(tables).generation
                &&& compiled_regex(
                    bundle.regex_rules,
                    ids_of(after.base_rules + after.blocklist_rules),
                ) == Ok::<Seq<RegexMeaning>, ErrorView>(after.regex_rules)
                &&& compiled_policy(after.base_rules + after.blocklist_rules) == Ok::<
                    Seq<Meaning>,
                    ErrorView,
                >(after.reference)
                &&& compiled_rewrites(bundle.rewrites) == Ok::<Answers, ErrorView>(after.rewrites)
            }
        }),
{
}

/// A bundle that does not keep the filter rules has those of its sources that are not disabled, as
/// they read now.
pub proof fn other_lists_are_read_anew(
    tables: TablesView,
    bundle: BundleView,
    files: Seq<SourceView>,
    source: CountrySource,
    inflight: usize,
    paths: Seq<Seq<char>>,
    disabled: Seq<Seq<char>>,
)
    requires
        !bundle.keep_lists,
        bundle.paths == Some(paths),
        bundle.disabled == Some(disabled),
        bundle_replaced(tables, bundle, files, source, inflight) is Ok,
    ensures
        active_paths(paths, disabled) matches Ok(active) && rules_at(files, active) == Ok::<
            Seq<RuleView>,
            ErrorView,
        >(bundle_replaced(tables, bundle, files, source, inflight)->Ok_0.1.blocklist_rules),
{
}

/// The configuration is read again only where nothing but the policy in it differs: then its policy
/// is in force, and so is what recorded decisions are to tell. A change of a listener, a port, a
/// store or a capacity is refused.
pub proof fn only_the_policy_is_read_again(
    config: Config,
    tables: TablesView,
    next: Config,
    files: Seq<SourceView>,
    source: CountrySource,
)
    ensures
        next.server.listen@ != config.server.listen@ ==> config_reloaded(
            config,
            tables,
            next,
            files,
            source,
        ) is Err,
        next.cache != config.cache ==> config_reloaded(config, tables, next, files, source) is Err,
        next.honeypot != config.honeypot ==> config_reloaded(config, tables, next, files, source)
            is Err,
        next.security != config.security ==> config_reloaded(config, tables, next, files, source)
            is Err,
        next.capture.inbound_port != config.capture.inbound_port ==> config_reloaded(
            config,
            tables,
            next,
            files,
            source,
        ) is Err,
        next.dhcp.pool_start@ != config.dhcp.pool_start@ ==> config_reloaded(
            config,
            tables,
            next,
            files,
            source,
        ) is Err,
        next.admission.max_inflight_requests != config.admission.max_inflight_requests
            ==> config_reloaded(config, tables, next, files, source) is Err,
        next.reload_interval_secs != config.reload_interval_secs ==> config_reloaded(
            config,
            tables,
            next,
            files,
            source,
        ) is Err,
        config_reloaded(config, tables, next, files, source) matches Ok((outcome, after)) ==> {
            &&& after.redaction == next.privacy.query_recording_redaction
            &&& after.explicit_rules == rule_views(next.policy.rules@)
            &&& after.blocklist_paths == texts(next.policy.blocklists@)
            &&& after.legacy_mode == next.policy.mode
            &&& after.default_action == next.policy.default_action
            &&& after.filtering_enabled == next.policy.filtering_enabled
            &&& after.admission == next.admission@
            &&& outcome == ReloadState::Unchanged ==> after == tables
        },
{
    let limit = config.admission.max_inflight_requests;
    if bundle_replaced(tables, bundle_of(next), files, source, limit) is Ok {
        accepted_bundles_are_in_force(tables, bundle_of(next), files, source, limit);
    }
}

} // verus!
