//! The tables that a running policy decides with, and how a change of them is published.
use vstd::prelude::*;
use vstd::string::*;

use crate::cache::{DnsCache, EntryView};
use crate::config::{group_views, identity_views, profile_views, rewrite_views, AdmissionConfig,
    AdmissionView, CacheConfig, ClientGroupConfig, ClientIdentityConfig, CountryPolicyConfig,
    CountryView, GroupView, IdentityView, Mode, ProfileView, QueryRecordingRedaction, RegexRuleView,
    RewriteConfig, RewriteView, ServiceProfileConfig};
use crate::country::{CountryPolicy, CountryPolicyView};
use crate::items::{append_items, copy_items, same_items};
use crate::legacy::all_normal;
use crate::policy::{compiled_policy, rule_views, Action, ErrorView, Meaning, PolicyError,
    ReferencePolicy, RuleConfig, RuleView};
use crate::profiles::{compile_profiles, compiled_profiles};
use crate::regex_rules::{checked_rules, compiled_expressions_are_settled, compiled_regex,
    regex_ids_are_distinct, settled, RegexMeaning, RegexRules};
use crate::rewrites::{compiled_rewrites, Answers, RewriteTable};
use crate::text::texts;
use crate::text_set::TextSet;

verus! {

/// Whether a change was published or found nothing to do.
#[derive(Clone, Copy, Debug, PartialEq, Eq, Structural)]
pub enum ReloadState {
    Published,
    Unchanged,
}

/// The tables that can change while running.
pub struct Tables {
    /// The explicit rules and those of the profiles.
    pub base_rules: Vec<RuleConfig>,
    pub explicit_rules: Vec<RuleConfig>,
    pub blocklist_rules: Vec<RuleConfig>,
    pub blocklist_paths: Vec<String>,
    pub disabled_blocklist_paths: TextSet,
    pub profiles: Vec<ServiceProfileConfig>,
    pub client_groups: Vec<ClientGroupConfig>,
    pub client_identities: Vec<ClientIdentityConfig>,
    pub country_policy: Option<CountryPolicy>,
    pub country_policy_config: CountryPolicyConfig,
    pub legacy_domains: Vec<String>,
    pub legacy_mode: Mode,
    pub default_action: Action,
    pub filtering_enabled: bool,
    pub rewrite_configs: Vec<RewriteConfig>,
    pub rewrites: RewriteTable,
    pub reference: ReferencePolicy,
    pub regex_rules: RegexRules,
    pub query_recording_redaction: QueryRecordingRedaction,
    pub admission: AdmissionConfig,
    pub cache: DnsCache,
    /// Counts the changes.
    pub policy_generation: u64,
}

/// The value of the tables.
pub struct TablesView {
    pub base_rules: Seq<RuleView>,
    pub explicit_rules: Seq<RuleView>,
    pub blocklist_rules: Seq<RuleView>,
    pub blocklist_paths: Seq<Seq<char>>,
    pub disabled_paths: Set<Seq<char>>,
    pub profiles: Seq<ProfileView>,
    pub client_groups: Seq<GroupView>,
    pub client_identities: Seq<IdentityView>,
    pub country: Option<CountryPolicyView>,
    pub country_config: CountryView,
    pub legacy_domains: Seq<Seq<char>>,
    pub legacy_mode: Mode,
    pub default_action: Action,
    pub filtering_enabled: bool,
    pub rewrite_configs: Seq<RewriteView>,
    pub rewrites: Answers,
    pub reference: Seq<Meaning>,
    pub regex_rules: Seq<RegexMeaning>,
    pub redaction: QueryRecordingRedaction,
    pub admission: AdmissionView,
    pub cache: Seq<EntryView>,
    pub cache_config: CacheConfig,
    pub generation: u64,
}

pub open spec fn country_view(policy: Option<CountryPolicy>) -> Option<CountryPolicyView> {
    match policy {
        Some(value) => Some(value@),
        None => None,
    }
}

impl View for Tables {
    type V = TablesView;

    open spec fn view(&self) -> TablesView {
        TablesView {
            base_rules: rule_views(self.base_rules@),
            explicit_rules: rule_views(self.explicit_rules@),
            blocklist_rules: rule_views(self.blocklist_rules@),
            blocklist_paths: texts(self.blocklist_paths@),
            disabled_paths: self.disabled_blocklist_paths@,
            profiles: profile_views(self.profiles@),
            client_groups: group_views(self.client_groups@),
            client_identities: identity_views(self.client_identities@),
            country: country_view(self.country_policy),
            country_config: self.country_policy_config@,
            legacy_domains: texts(self.legacy_domains@),
            legacy_mode: self.legacy_mode,
            default_action: self.default_action,
            filtering_enabled: self.filtering_enabled,
            rewrite_configs: rewrite_views(self.rewrite_configs@),
            rewrites: self.rewrites@,
            reference: self.reference@,
            regex_rules: self.regex_rules@,
            redaction: self.query_recording_redaction,
            admission: self.admission@,
            cache: self.cache@,
            cache_config: self.cache.config,
            generation: self.policy_generation,
        }
    }
}

/// Whether a number belongs to a rule with an expression.
pub open spec fn is_regex_id(regex: Seq<RegexMeaning>, id: u32) -> bool {
    exists|i: int| 0 <= i < regex.len() && (#[trigger] regex[i]).id == id
}

/// The first number of a domain rule that also belongs to a rule with an expression.
pub open spec fn first_clash(rules: Seq<RuleView>, regex: Seq<RegexMeaning>) -> Option<u32>
    decreases rules.len(),
{
    if rules.len() == 0 {
        None
    } else {
        match first_clash(rules.drop_last(), regex) {
            Some(id) => Some(id),
            None => if is_regex_id(regex, rules.last().id) {
                Some(rules.last().id)
            } else {
                None
            },
        }
    }
}

/// The domain rules that are in force.
pub open spec fn published(tables: TablesView) -> Seq<RuleView> {
    tables.base_rules + tables.blocklist_rules
}

/// The numbers of the rules.
pub open spec fn ids_of(rules: Seq<RuleView>) -> Seq<u32> {
    Seq::new(rules.len(), |i: int| rules[i].id)
}

/// What the compiled tables have to do with what they were compiled from: the decisions are those
/// of the rules in force, the local answers are those of the configured ones, no number names two
/// rules, the rules with expressions are what their listing compiles to, and the plain list is in
/// normal form.
pub open spec fn compiled_from(tables: TablesView) -> bool {
    &&& compiled_policy(published(tables)) == Ok::<Seq<Meaning>, ErrorView>(tables.reference)
    &&& compiled_rewrites(tables.rewrite_configs) == Ok::<Answers, ErrorView>(tables.rewrites)
    &&& first_clash(published(tables), tables.regex_rules) is None
    &&& settled(tables.regex_rules)
    &&& all_normal(tables.legacy_domains)
}

/// The rules in force beside the filter lists are the explicit ones and those of the profiles.
pub open spec fn expanded_from(tables: TablesView) -> bool {
    compiled_profiles(tables.profiles, tables.client_groups) is Ok && tables.base_rules
        == tables.explicit_rules + compiled_profiles(tables.profiles, tables.client_groups)->Ok_0
}

impl Tables {
    /// The parts are as they must be, each for itself.
    pub open spec fn parts_wf(&self) -> bool {
        &&& self.disabled_blocklist_paths.wf()
        &&& self.country_policy is Some ==> self.country_policy->0.wf()
        &&& self.rewrites.wf()
        &&& self.regex_rules.wf()
        &&& self.cache.wf()
    }

    /// What every change keeps.
    pub open spec fn wf(&self) -> bool {
        self.parts_wf() && compiled_from(self@) && expanded_from(self@)
    }
}

// ---- changes -------------------------------------------------------------------------

/// What a change comes to: the outcome with the tables behind it, or why it is refused.
pub type Change = Result<(ReloadState, TablesView), ErrorView>;

/// A change has its outcome; a refused one leaves everything as it was.
pub open spec fn performed(
    change: Change,
    before: TablesView,
    after: TablesView,
    r: Result<ReloadState, PolicyError>,
) -> bool {
    match change {
        Ok((outcome, next)) => r == Ok::<ReloadState, PolicyError>(outcome) && after == next,
        Err(error) => r is Err && r->Err_0@ == error && after == before,
    }
}

/// The number of the next generation.
pub open spec fn next_generation(generation: u64) -> u64 {
    if generation == u64::MAX {
        0
    } else {
        (generation + 1) as u64
    }
}

/// The tables with the next number.
pub open spec fn counted(tables: TablesView) -> TablesView {
    TablesView { generation: next_generation(tables.generation), ..tables }
}

/// The tables with the next number and without cached answers.
pub open spec fn renewed(tables: TablesView) -> TablesView {
    TablesView {
        generation: next_generation(tables.generation),
        cache: Seq::empty(),
        ..tables
    }
}

/// Publishing other rules beside the filter lists.
pub open spec fn rules_published(
    tables: TablesView,
    rules: Seq<RuleView>,
    explicit: Seq<RuleView>,
) -> Change {
    let all = rules + tables.blocklist_rules;
    match first_clash(all, tables.regex_rules) {
        Some(id) => Err(ErrorView::DuplicateRule { id }),
        None => match compiled_policy(all) {
            Err(error) => Err(error),
            Ok(reference) => if tables.base_rules == rules && tables.explicit_rules == explicit {
                Ok((ReloadState::Unchanged, tables))
            } else {
                Ok(
                    (
                        ReloadState::Published,
                        renewed(
                            TablesView {
                                base_rules: rules,
                                explicit_rules: explicit,
                                reference,
                                ..tables
                            },
                        ),
                    ),
                )
            },
        },
    }
}

/// Publishing other rules of filter lists.
pub open spec fn lists_published(tables: TablesView, rules: Seq<RuleView>) -> Change {
    let all = tables.base_rules + rules;
    match first_clash(all, tables.regex_rules) {
        Some(id) => Err(ErrorView::DuplicateRule { id }),
        None => match compiled_policy(all) {
            Err(error) => Err(error),
            Ok(reference) => Ok(
                (
                    ReloadState::Published,
                    renewed(TablesView { blocklist_rules: rules, reference, ..tables }),
                ),
            ),
        },
    }
}

pub proof fn first_clash_stays(rules: Seq<RuleView>, regex: Seq<RegexMeaning>, n: int)
    requires
        0 <= n <= rules.len(),
        first_clash(rules.take(n), regex) is Some,
    ensures
        first_clash(rules, regex) == first_clash(rules.take(n), regex),
    decreases rules.len(),
{
    if n == rules.len() {
        assert(rules.take(n) =~= rules);
    } else {
        assert(rules.drop_last().take(n) =~= rules.take(n));
        first_clash_stays(rules.drop_last(), regex, n);
    }
}

/// Without a clash no number names a rule of either kind.
pub proof fn no_clash_is_disjoint(rules: Seq<RuleView>, regex: Seq<RegexMeaning>)
    ensures
        first_clash(rules, regex) is None <==> forall|i: int|
            0 <= i < rules.len() ==> !is_regex_id(regex, (#[trigger] rules[i]).id),
    decreases rules.len(),
{
    if rules.len() > 0 {
        let front = rules.drop_last();
        no_clash_is_disjoint(front, regex);
        if first_clash(rules, regex) is None {
            assert forall|i: int| 0 <= i < rules.len() implies !is_regex_id(
                regex,
                (#[trigger] rules[i]).id,
            ) by {
                if i < front.len() {
                    assert(front[i] == rules[i]);
                }
            }
        }
        if forall|i: int|
            0 <= i < rules.len() ==> !is_regex_id(regex, (#[trigger] rules[i]).id) {
            assert forall|i: int| 0 <= i < front.len() implies !is_regex_id(
                regex,
                (#[trigger] front[i]).id,
            ) by {
                assert(front[i] == rules[i]);
            }
            assert(rules[rules.len() - 1] == rules.last());
        }
    }
}

/// Rules with expressions that were compiled beside the domain rules do not clash with them.
pub proof fn compiled_regex_does_not_clash(rules: Seq<RuleView>, configs: Seq<RegexRuleView>)
    requires
        compiled_regex(configs, ids_of(rules)) is Ok,
    ensures
        first_clash(rules, compiled_regex(configs, ids_of(rules))->Ok_0) is None,
        settled(compiled_regex(configs, ids_of(rules))->Ok_0),
        compiled_regex(configs, ids_of(rules))->Ok_0.len() == configs.len(),
{
    let taken = ids_of(rules);
    let regex = compiled_regex(configs, taken)->Ok_0;
    regex_ids_are_distinct(configs, taken);
    compiled_expressions_are_settled(configs, taken);
    no_clash_is_disjoint(rules, regex);
    assert forall|i: int| 0 <= i < rules.len() implies !is_regex_id(
        regex,
        (#[trigger] rules[i]).id,
    ) by {
        if is_regex_id(regex, rules[i].id) {
            let k = choose|k: int| 0 <= k < regex.len() && (#[trigger] regex[k]).id == rules[i].id;
            assert(regex[k] == checked_rules(configs, taken)->Ok_0[k]);
            assert(configs[k].id == regex[k].id);
            assert(taken[i] == rules[i].id);
            assert(taken.contains(configs[k].id));
        }
    }
}

pub(crate) fn find_clash(rules: &[RuleConfig], regex: &RegexRules) -> (r: Option<u32>)
    ensures
        r == first_clash(rule_views(rules@), regex@),
{
    let ghost all = rule_views(rules@);
    let mut i: usize = 0;
    while i < rules.len()
        invariant
            i <= rules.len(),
            all == rule_views(rules@),
            first_clash(all.take(i as int), regex@) is None,
        decreases rules.len() - i,
    {
        let ghost next = all.take(i as int + 1);
        assert(next.drop_last() =~= all.take(i as int));
        assert(next.last() == rules[i as int]@);
        let id: u32 = rules[i].id;
        let mut k: usize = 0;
        while k < regex.rules.len()
            invariant
                k <= regex.rules.len(),
                i < rules.len(),
                id == rules@[i as int].id,
                all == rule_views(rules@),
                next == all.take(i as int + 1),
                next.drop_last() == all.take(i as int),
                next.last() == rules@[i as int]@,
                first_clash(all.take(i as int), regex@) is None,
                forall|j: int| 0 <= j < k ==> (#[trigger] regex@[j]).id != id,
            decreases regex.rules.len() - k,
        {
            assert(regex@[k as int] == regex.rules@[k as int]@);
            if regex.rules[k].id == id {
                proof {
                    assert(is_regex_id(regex@, id));
                    assert(first_clash(next, regex@) == Some(id));
                    first_clash_stays(all, regex@, i as int + 1);
                }
                return Some(id);
            }
            k = k + 1;
        }
        assert(!is_regex_id(regex@, id));
        i = i + 1;
    }
    assert(all.take(i as int) =~= all);
    None
}

/// The numbers of the rules.
pub fn rule_ids(rules: &[RuleConfig]) -> (r: Vec<u32>)
    ensures
        r@ == ids_of(rule_views(rules@)),
{
    let ghost all = ids_of(rule_views(rules@));
    let mut out: Vec<u32> = Vec::new();
    let mut i: usize = 0;
    while i < rules.len()
        invariant
            i <= rules.len(),
            all == ids_of(rule_views(rules@)),
            out@ == all.take(i as int),
        decreases rules.len() - i,
    {
        out.push(rules[i].id);
        i = i + 1;
        assert(out@ =~= all.take(i as int));
    }
    assert(all.take(i as int) =~= all);
    out
}

impl Tables {
    /// Counts one more generation.
    pub fn count(&mut self)
        ensures
            final(self)@ == counted(old(self)@),
            old(self).parts_wf() ==> final(self).parts_wf(),
    {
        self.policy_generation = if self.policy_generation == u64::MAX {
            0
        } else {
            self.policy_generation + 1
        };
    }

    /// Forgets the cached answers and counts one more generation.
    pub fn renew(&mut self)
        ensures
            final(self)@ == renewed(old(self)@),
            old(self).parts_wf() ==> final(self).parts_wf(),
    {
        self.cache.clear();
        self.count();
    }

    /// The domain rules that are in force.
    pub fn published_rules(&self) -> (r: Vec<RuleConfig>)
        ensures
            rule_views(r@) == published(self@),
    {
        let mut all = copy_items(&self.base_rules);
        append_items(&mut all, &self.blocklist_rules);
        all
    }

    /// Whether domain rules or rules with expressions are in force.
    pub fn rules_configured(&self) -> (r: bool)
        ensures
            r == has_rules(self@),
    {
        self.base_rules.len() > 0 || self.blocklist_rules.len() > 0 || self.regex_rules.rules.len()
            > 0
    }

    /// The rules of the profiles in force.
    pub fn current_profile_rules(&self) -> (r: Result<Vec<RuleConfig>, PolicyError>)
        ensures
            match compiled_profiles(self@.profiles, self@.client_groups) {
                Ok(rules) => r is Ok && rule_views(r->Ok_0@) == rules,
                Err(error) => r is Err && r->Err_0@ == error,
            },
    {
        compile_profiles(&self.profiles, &self.client_groups)
    }

    /// Checks other rules beside the filter lists, and publishes them where they differ.
    pub fn publish_rules(&mut self, rules: Vec<RuleConfig>, explicit: Vec<RuleConfig>) -> (r: Result<
        ReloadState,
        PolicyError,
    >)
        requires
            old(self).parts_wf(),
            compiled_from(old(self)@),
        ensures
            performed(
                rules_published(old(self)@, rule_views(rules@), rule_views(explicit@)),
                old(self)@,
                final(self)@,
                r,
            ),
            final(self).parts_wf(),
            compiled_from(final(self)@),
    {
        let ghost before = self@;
        let mut all = copy_items(&rules);
        append_items(&mut all, &self.blocklist_rules);
        match find_clash(&all, &self.regex_rules) {
            Some(id) => {
                return Err(PolicyError::DuplicateRule { id });
            },
            None => {},
        }
        let reference = match ReferencePolicy::new(&all) {
            Ok(reference) => reference,
            Err(error) => {
                return Err(error);
            },
        };
        if same_items(&self.base_rules, &rules) && same_items(&self.explicit_rules, &explicit) {
            return Ok(ReloadState::Unchanged);
        }
        self.base_rules = rules;
        self.explicit_rules = explicit;
        self.reference = reference;
        self.renew();
        assert(published(self@) == rule_views(all@));
        Ok(ReloadState::Published)
    }

    /// Checks other rules of filter lists, and publishes them.
    pub fn publish_lists(&mut self, rules: Vec<RuleConfig>) -> (r: Result<ReloadState, PolicyError>)
        requires
            old(self).wf(),
        ensures
            performed(
                lists_published(old(self)@, rule_views(rules@)),
                old(self)@,
                final(self)@,
                r,
            ),
            final(self).wf(),
    {
        let mut all = copy_items(&self.base_rules);
        append_items(&mut all, &rules);
        match find_clash(&all, &self.regex_rules) {
            Some(id) => {
                return Err(PolicyError::DuplicateRule { id });
            },
            None => {},
        }
        let reference = match ReferencePolicy::new(&all) {
            Ok(reference) => reference,
            Err(error) => {
                return Err(error);
            },
        };
        self.blocklist_rules = rules;
        self.reference = reference;
        self.renew();
        assert(published(self@) == rule_views(all@));
        Ok(ReloadState::Published)
    }
}

/// Whether domain rules or rules with expressions are in force.
pub open spec fn has_rules(tables: TablesView) -> bool {
    tables.base_rules.len() > 0 || tables.blocklist_rules.len() > 0 || tables.regex_rules.len() > 0
}

// ---- laws ----------------------------------------------------------------------------

/// Publishing rules either changes nothing or counts one generation and forgets the cached
/// answers; everything but the rules stays.
pub proof fn publications_are_counted(
    tables: TablesView,
    rules: Seq<RuleView>,
    explicit: Seq<RuleView>,
)
    requires
        rules_published(tables, rules, explicit) is Ok,
    ensures
        ({
            let (outcome, next) = rules_published(tables, rules, explicit)->Ok_0;
            &&& outcome == ReloadState::Unchanged ==> next == tables
            &&& outcome == ReloadState::Published ==> {
                &&& next.generation == next_generation(tables.generation)
                &&& next.cache.len() == 0
                &&& next.base_rules == rules
                &&& next.explicit_rules == explicit
                &&& next == (TablesView {
                    base_rules: rules,
                    explicit_rules: explicit,
                    reference: next.reference,
                    cache: next.cache,
                    generation: next.generation,
                    ..tables
                })
            }
        }),
{
}

/// Publishing the rules that are in force finds nothing to do.
pub proof fn republishing_changes_nothing(tables: TablesView)
    requires
        compiled_from(tables),
    ensures
        rules_published(tables, tables.base_rules, tables.explicit_rules) == Ok::<
            (ReloadState, TablesView),
            ErrorView,
        >((ReloadState::Unchanged, tables)),
{
}

/// Each change counts one generation up.
pub proof fn generations_count_up(tables: TablesView)
    ensures
        counted(tables).generation == if tables.generation < 0xffff_ffff_ffff_ffff {
            tables.generation + 1
        } else {
            0
        },
        counted(tables).cache == tables.cache,
        renewed(tables).generation == counted(tables).generation,
        renewed(tables).cache.len() == 0,
{
}

/// The rules that a publication puts in force are those that decide from then on, the ones of the
/// filter lists behind the others.
pub proof fn published_rules_decide(
    tables: TablesView,
    rules: Seq<RuleView>,
    explicit: Seq<RuleView>,
)
    requires
        compiled_from(tables),
        rules_published(tables, rules, explicit) is Ok,
    ensures
        ({
            let (outcome, next) = rules_published(tables, rules, explicit)->Ok_0;
            &&& next.base_rules == rules
            &&& next.explicit_rules == explicit
            &&& next.blocklist_rules == tables.blocklist_rules
            &&& next.regex_rules == tables.regex_rules
            &&& compiled_policy(rules + tables.blocklist_rules) == Ok::<Seq<Meaning>, ErrorView>(
                next.reference,
            )
            &&& (rules != tables.base_rules || explicit != tables.explicit_rules) ==> outcome
                == ReloadState::Published && next.cache.len() == 0
        }),
{
}

/// Publishing the rules of filter lists puts them behind the others, counts a generation and
/// forgets the cached answers; everything else stays.
pub proof fn published_lists_decide(tables: TablesView, rules: Seq<RuleView>)
    requires
        lists_published(tables, rules) is Ok,
    ensures
        ({
            let (outcome, next) = lists_published(tables, rules)->Ok_0;
            &&& outcome == ReloadState::Published
            &&& compiled_policy(tables.base_rules + rules) == Ok::<Seq<Meaning>, ErrorView>(
                next.reference,
            )
            &&& next.cache.len() == 0
            &&& next.generation == counted(tables).generation
            &&& next == (TablesView {
                blocklist_rules: rules,
                reference: next.reference,
                cache: next.cache,
                generation: next.generation,
                ..tables
            })
        }),
{
}

/// A number that a rule with an expression has is refused for a domain rule.
pub proof fn shared_numbers_are_refused(
    tables: TablesView,
    rules: Seq<RuleView>,
    explicit: Seq<RuleView>,
    i: int,
    k: int,
)
    requires
        0 <= i < rules.len(),
        0 <= k < tables.regex_rules.len(),
        rules[i].id == tables.regex_rules[k].id,
    ensures
        rules_published(tables, rules, explicit) matches Err(ErrorView::DuplicateRule { .. }),
        lists_published(tables, rules) matches Err(ErrorView::DuplicateRule { .. }),
{
    let all = rules + tables.blocklist_rules;
    let lists = tables.base_rules + rules;
    assert(all[i] == rules[i]);
    assert(lists[tables.base_rules.len() + i] == rules[i]);
    no_clash_is_disjoint(all, tables.regex_rules);
    no_clash_is_disjoint(lists, tables.regex_rules);
    assert(is_regex_id(tables.regex_rules, rules[i].id));
}

/// One rule of any kind is enough for rules to be in force.
pub proof fn any_rule_counts(tables: TablesView)
    ensures
        tables.base_rules.len() > 0 ==> has_rules(tables),
        tables.blocklist_rules.len() > 0 ==> has_rules(tables),
        tables.regex_rules.len() > 0 ==> has_rules(tables),
        has_rules(tables) ==> published(tables).len() > 0 || tables.regex_rules.len() > 0,
{
}

/// A change that is refused is told and leaves the tables as they were; one that is accepted leaves
/// them as it says.
pub proof fn changes_are_made_or_refused(
    change: Change,
    before: TablesView,
    after: TablesView,
    r: Result<ReloadState, PolicyError>,
)
    requires
        performed(change, before, after, r),
    ensures
        r is Err <==> change is Err,
        r is Err ==> after == before && r->Err_0@ == change->Err_0,
        r is Ok ==> r->Ok_0 == change->Ok_0.0 && after == change->Ok_0.1,
{
}

} // verus!
