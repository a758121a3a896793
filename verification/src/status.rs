//! What operators are told of a running policy: counts and switches, never names, clients or
//! payloads of queries.
use vstd::prelude::*;
use vstd::string::*;

use crate::blocklist::{collected, http_parts, http_source_parts, list_rules, load_blocklists,
    remaining, source_views, BlocklistSource, SourceView, MAX_BLOCKLIST_BYTES};
use crate::buckets::seconds;
use crate::config::{group_views, ClientGroupConfig, GroupView, Mode, ProfileView,
    ServiceProfileConfig};
use crate::country::{fingerprint, source_fingerprint};
use crate::policy::{Action, RuleConfig, RuleView};
use crate::profiles::{expanded, find_group, groups_stand_for_their_members, key_of, named_scopes,
    profile_rules, profile_rules_are_numbered, profile_scopes};
use crate::recording::{cutoff, decisions, last_entries, retained, reviews, shown_decisions,
    shown_incidents, DecisionRecord, IncidentReview, LogEvent, QueryLog, MAX_ADMIN_LOG_ENTRIES};
use crate::rewrites::exact_count;
use crate::runtime::{zero_counts, Policy, ACTIONS};
use crate::state::has_rules;
use crate::text::{lower, same, texts, to_chars, to_lower, trimmed};

verus! {

/// The log without what is too old.
pub open spec fn log_trimmed(before: Option<QueryLog>, after: Option<QueryLog>, now_ms: u64) -> bool {
    match before {
        Some(log) => {
            &&& after is Some
            &&& after->0@ == retained(log@, cutoff(now_ms, log.retention_ms))
            &&& after->0.max_entries == log.max_entries
            &&& after->0.retention_ms == log.retention_ms
        },
        None => after is None,
    }
}

// ---- statistics ----------------------------------------------------------------------

pub open spec fn bounded_sum(counts: Seq<u64>) -> u64
    decreases counts.len(),
{
    if counts.len() == 0 {
        0
    } else {
        crate::buckets::saturating(bounded_sum(counts.drop_last()), counts.last())
    }
}

fn sum_counts(counts: &[u64]) -> (r: u64)
    ensures
        r == bounded_sum(counts@),
{
    let mut total: u64 = 0;
    let mut i: usize = 0;
    while i < counts.len()
        invariant
            i <= counts.len(),
            total == bounded_sum(counts@.take(i as int)),
        decreases counts.len() - i,
    {
        assert(counts@.take(i as int + 1).drop_last() =~= counts@.take(i as int));
        total = total.saturating_add(counts[i]);
        i = i + 1;
    }
    assert(counts@.take(i as int) =~= counts@);
    total
}

/// How often each action was taken, and how often one was taken at all.
#[derive(Debug, PartialEq, Eq)]
pub struct Stats {
    pub total: u64,
    pub counts: Vec<u64>,
}

impl Policy {
    pub fn stats(&self) -> (r: Stats)
        ensures
            r.total == bounded_sum(self.decision_counts@),
            r.counts@ == self.decision_counts@,
    {
        Stats {
            total: sum_counts(&self.decision_counts),
            counts: crate::lists::copy_list(&self.decision_counts),
        }
    }

    /// Sets every count to zero. The result is the sum of what they were.
    pub fn clear_stats(&mut self) -> (r: u64)
        requires
            old(self).wf(),
        ensures
            r == bounded_sum(old(self).decision_counts@),
            forall|i: int| 0 <= i < ACTIONS ==> final(self).decision_counts@[i] == 0,
            final(self).config == old(self).config,
            final(self).tables == old(self).tables,
            final(self).traffic == old(self).traffic,
            final(self).query_log == old(self).query_log,
            final(self).wf(),
    {
        let removed: u64 = sum_counts(&self.decision_counts);
        self.decision_counts = zero_counts();
        removed
    }

    /// Forgets the log. The result is how many entries it had.
    pub fn clear_query_log(&mut self) -> (r: usize)
        requires
            old(self).wf(),
        ensures
            r == (match old(self).query_log {
                Some(log) => log@.len(),
                None => 0,
            }),
            match old(self).query_log {
                Some(log) => {
                    &&& final(self).query_log is Some
                    &&& final(self).query_log->0@ == Seq::<LogEvent>::empty()
                    &&& final(self).query_log->0.max_entries == log.max_entries
                    &&& final(self).query_log->0.retention_ms == log.retention_ms
                },
                None => final(self).query_log is None,
            },
            final(self).config == old(self).config,
            final(self).tables == old(self).tables,
            final(self).traffic == old(self).traffic,
            final(self).decision_counts == old(self).decision_counts,
            final(self).wf(),
    {
        match self.query_log.take() {
            Some(log) => {
                let mut log = log;
                let count: usize = log.clear();
                self.query_log = Some(log);
                count
            },
            None => 0,
        }
    }

    /// The entries of the log that are not too old.
    fn log_entries(&mut self, now_ms: u64) -> (r: Option<Vec<LogEvent>>)
        requires
            old(self).wf(),
        ensures
            match old(self).query_log {
                Some(log) => r is Some && r->0@ == retained(
                    log@,
                    cutoff(now_ms, log.retention_ms),
                ),
                None => r is None,
            },
            log_trimmed(old(self).query_log, final(self).query_log, now_ms),
            final(self).config == old(self).config,
            final(self).tables == old(self).tables,
            final(self).traffic == old(self).traffic,
            final(self).decision_counts == old(self).decision_counts,
            final(self).wf(),
    {
        match self.query_log.take() {
            Some(log) => {
                let mut log = log;
                let entries = log.snapshot(now_ms);
                self.query_log = Some(log);
                Some(entries)
            },
            None => None,
        }
    }

    /// The last decisions of the log, in order, and whether there were more; nothing where there
    /// is no log.
    pub fn logged_decisions(&mut self, now_ms: u64) -> (r: Option<(Vec<DecisionRecord>, bool)>)
        requires
            old(self).wf(),
        ensures
            match old(self).query_log {
                Some(log) => {
                    let all = decisions(
                        retained(log@, cutoff(now_ms, log.retention_ms)),
                    );
                    let (shown, more) = r->0;
                    &&& r is Some
                    &&& shown@ == last_entries(
                        all,
                        MAX_ADMIN_LOG_ENTRIES as int,
                    )
                    &&& more == (all.len() > MAX_ADMIN_LOG_ENTRIES)
                },
                None => r is None,
            },
            log_trimmed(old(self).query_log, final(self).query_log, now_ms),
            final(self).config == old(self).config,
            final(self).tables == old(self).tables,
            final(self).traffic == old(self).traffic,
            final(self).decision_counts == old(self).decision_counts,
            final(self).wf(),
    {
        match self.log_entries(now_ms) {
            Some(entries) => Some(shown_decisions(&entries)),
            None => None,
        }
    }

    /// The last incidents of the log, the newest first, and whether there were more; nothing
    /// where there is no log.
    pub fn logged_incidents(&mut self, now_ms: u64) -> (r: Option<(Vec<IncidentReview>, bool)>)
        requires
            old(self).wf(),
        ensures
            match old(self).query_log {
                Some(log) => {
                    let all = reviews(
                        retained(log@, cutoff(now_ms, log.retention_ms)),
                        now_ms,
                    );
                    let (shown, more) = r->0;
                    &&& r is Some
                    &&& shown@ == last_entries(
                        all,
                        MAX_ADMIN_LOG_ENTRIES as int,
                    ).reverse()
                    &&& more == (all.len() > MAX_ADMIN_LOG_ENTRIES)
                },
                None => r is None,
            },
            log_trimmed(old(self).query_log, final(self).query_log, now_ms),
            final(self).config == old(self).config,
            final(self).tables == old(self).tables,
            final(self).traffic == old(self).traffic,
            final(self).decision_counts == old(self).decision_counts,
            final(self).wf(),
    {
        match self.log_entries(now_ms) {
            Some(entries) => Some(shown_incidents(&entries, now_ms)),
            None => None,
        }
    }
}

// ---- the tables ----------------------------------------------------------------------

/// How many rules are for clients of one identity.
pub open spec fn identity_rules(rules: Seq<RuleView>) -> nat
    decreases rules.len(),
{
    if rules.len() == 0 {
        0
    } else {
        identity_rules(rules.drop_last()) + if rules.last().client_identity is Some {
            1nat
        } else {
            0
        }
    }
}

fn count_identity_rules(rules: &[RuleConfig]) -> (r: usize)
    ensures
        r == identity_rules(crate::policy::rule_views(rules@)),
{
    let ghost all = crate::policy::rule_views(rules@);
    let mut count: usize = 0;
    let mut i: usize = 0;
    while i < rules.len()
        invariant
            i <= rules.len(),
            count <= i,
            all == crate::policy::rule_views(rules@),
            count == identity_rules(all.take(i as int)),
        decreases rules.len() - i,
    {
        let ghost next = all.take(i as int + 1);
        assert(next.drop_last() =~= all.take(i as int));
        assert(next.last() == rules[i as int]@);
        if rules[i].client_identity.is_some() {
            count = count + 1;
        }
        i = i + 1;
    }
    assert(all.take(i as int) =~= all);
    count
}

/// The tables in numbers.
#[derive(Clone, Copy, Debug, PartialEq, Eq)]
pub struct PolicyStatus {
    pub rules_configured: bool,
    pub domain_rules: usize,
    pub regex_rules: usize,
    pub blocklist_sources: usize,
    pub disabled_blocklist_sources: usize,
    pub blocklist_rules: usize,
    pub rewrites: usize,
    pub profiles: usize,
    pub client_groups: usize,
    pub identity_rules: usize,
    pub country_configured: bool,
    pub country_entries: usize,
    pub country_deny_rules: usize,
    pub country_observe_rules: usize,
    pub country_reload_interval_secs: u64,
    pub legacy_domain_count: usize,
    pub legacy_mode: Mode,
    pub default_action: Action,
    pub filtering_enabled: bool,
    pub cache_entries: usize,
    pub cache_capacity: usize,
    pub policy_generation: u64,
}

impl Policy {
    pub fn policy_status(&self) -> (r: PolicyStatus)
        requires
            self.wf(),
        ensures
            r.rules_configured == has_rules(self.tables@),
            r.domain_rules == self.tables@.base_rules.len(),
            r.regex_rules == self.tables@.regex_rules.len(),
            r.blocklist_sources == self.tables@.blocklist_paths.len(),
            r.disabled_blocklist_sources == self.tables@.disabled_paths.len(),
            r.blocklist_rules == self.tables@.blocklist_rules.len(),
            r.rewrites == exact_count(self.tables.rewrites.entries@),
            r.profiles == self.tables@.profiles.len(),
            r.client_groups == self.tables@.client_groups.len(),
            r.identity_rules == identity_rules(self.tables@.base_rules),
            r.country_configured == (self.tables@.country is Some),
            match self.tables@.country {
                Some(map) => {
                    &&& r.country_entries == map.places.len()
                    &&& r.country_deny_rules == map.deny.countries.len()
                    &&& r.country_observe_rules == map.observe.countries.len()
                },
                None => r.country_entries == 0 && r.country_deny_rules == 0
                    && r.country_observe_rules == 0,
            },
            r.country_reload_interval_secs == self.tables@.country_config.reload_interval_secs,
            r.legacy_domain_count == self.tables@.legacy_domains.len(),
            r.legacy_mode == self.tables@.legacy_mode,
            r.default_action == self.tables@.default_action,
            r.filtering_enabled == self.tables@.filtering_enabled,
            r.cache_entries == self.tables@.cache.len(),
            r.cache_capacity == self.tables@.cache_config.max_entries,
            r.policy_generation == self.tables@.generation,
    {
        let (entries, deny, observe) = match &self.tables.country_policy {
            Some(map) => (
                map.entries.len(),
                map.deny.countries.len(),
                map.observe.countries.len(),
            ),
            None => (0, 0, 0),
        };
        PolicyStatus {
            rules_configured: self.tables.rules_configured(),
            domain_rules: self.tables.base_rules.len(),
            regex_rules: self.tables.regex_rules.rules.len(),
            blocklist_sources: self.tables.blocklist_paths.len(),
            disabled_blocklist_sources: self.tables.disabled_blocklist_paths.len(),
            blocklist_rules: self.tables.blocklist_rules.len(),
            rewrites: self.tables.rewrites.len(),
            profiles: self.tables.profiles.len(),
            client_groups: self.tables.client_groups.len(),
            identity_rules: count_identity_rules(&self.tables.base_rules),
            country_configured: self.tables.country_policy.is_some(),
            country_entries: entries,
            country_deny_rules: deny,
            country_observe_rules: observe,
            country_reload_interval_secs: self.tables.country_policy_config.reload_interval_secs,
            legacy_domain_count: self.tables.legacy_domains.len(),
            legacy_mode: self.tables.legacy_mode,
            default_action: self.tables.default_action,
            filtering_enabled: self.tables.filtering_enabled,
            cache_entries: self.tables.cache.len(),
            cache_capacity: self.tables.cache.config.max_entries,
            policy_generation: self.tables.policy_generation,
        }
    }

    /// How many clients and networks have a breaker, and whether the one for all is open.
    pub fn abuse_status(&self, now: u64) -> (r: (usize, usize, bool))
        ensures
            r.0 == self.traffic@.client_abuse.len(),
            r.1 == self.traffic@.network_abuse.len(),
            r.2 == (self.traffic@.global_abuse.blocked_until > seconds(now)),
    {
        (
            self.traffic.client_abuse.len(),
            self.traffic.network_abuse.len(),
            self.traffic.global_abuse.is_blocked(now),
        )
    }
}

// ---- profiles ------------------------------------------------------------------------

/// The position of the first group of that name, whatever its case.
pub open spec fn group_named(groups: Seq<GroupView>, name: Seq<char>) -> Option<int>
    decreases groups.len(),
{
    if groups.len() == 0 {
        None
    } else {
        match group_named(groups.drop_last(), name) {
            Some(i) => Some(i),
            None => if lower(groups.last().name) == lower(name) {
                Some(groups.len() - 1)
            } else {
                None
            },
        }
    }
}

/// How many scopes a group stands for.
pub open spec fn scope_count(group: GroupView) -> int {
    if group.enabled {
        group.client_addresses.len() + if group.client_cidrs.len() > 0 {
            1int
        } else {
            0
        }
    } else {
        0
    }
}

/// How many scopes the named groups stand for.
pub open spec fn named_scope_count(groups: Seq<GroupView>, names: Seq<Seq<char>>) -> int
    decreases names.len(),
{
    if names.len() == 0 {
        0
    } else {
        let before = named_scope_count(groups, names.drop_last());
        match group_named(groups, names.last()) {
            Some(i) => before + scope_count(groups[i]),
            None => before,
        }
    }
}

/// How many rules a profile stands for.
pub open spec fn expanded_rules(profile: ProfileView, groups: Seq<GroupView>) -> int {
    if !profile.enabled {
        0
    } else if profile.groups.len() == 0 {
        profile.domains.len() as int
    } else {
        profile.domains.len() * named_scope_count(groups, profile.groups)
    }
}

fn find_group_named(groups: &[ClientGroupConfig], name: &str) -> (r: Option<usize>)
    ensures
        match group_named(group_views(groups@), name@) {
            Some(i) => r is Some && r->0 == i && 0 <= i < groups@.len(),
            None => r is None,
        },
{
    let ghost all = group_views(groups@);
    let wanted = to_lower(&to_chars(name));
    let mut i: usize = 0;
    while i < groups.len()
        invariant
            i <= groups.len(),
            all == group_views(groups@),
            wanted@ == lower(name@),
            group_named(all.take(i as int), name@) is None,
        decreases groups.len() - i,
    {
        let ghost next = all.take(i as int + 1);
        assert(next.drop_last() =~= all.take(i as int));
        assert(next.last() == groups[i as int]@);
        let found = to_lower(&to_chars(groups[i].name.as_str()));
        if same(&found, &wanted) {
            proof {
                group_named_stays(all, name@, i as int);
            }
            return Some(i);
        }
        i = i + 1;
    }
    assert(all.take(i as int) =~= all);
    None
}

proof fn group_named_stays(groups: Seq<GroupView>, name: Seq<char>, i: int)
    requires
        0 <= i < groups.len(),
        group_named(groups.take(i + 1), name) == Some(i),
    ensures
        group_named(groups, name) == Some(i),
    decreases groups.len(),
{
    if groups.len() == i + 1 {
        assert(groups.take(i + 1) =~= groups);
    } else {
        assert(groups.drop_last().take(i + 1) =~= groups.take(i + 1));
        group_named_stays(groups.drop_last(), name, i);
    }
}

/// How many rules a profile stands for; numbers beyond the machine word stay at its limit.
pub fn expanded_rule_count(profile: &ServiceProfileConfig, groups: &[ClientGroupConfig]) -> (r: usize)
    ensures
        r == crate::admission::within_word(
            expanded_rules(profile@, group_views(groups@)),
        ),
{
    let ghost known = group_views(groups@);
    if !profile.enabled {
        return 0;
    }
    if profile.groups.len() == 0 {
        return profile.domains.len();
    }
    let ghost all = texts(profile.groups@);
    let mut scopes: u128 = 0;
    let mut i: usize = 0;
    while i < profile.groups.len()
        invariant
            i <= profile.groups.len(),
            known == group_views(groups@),
            all == texts(profile.groups@),
            scopes == named_scope_count(known, all.take(i as int)),
            scopes <= i * (usize::MAX as u128 + 1),
        decreases profile.groups.len() - i,
    {
        let ghost next = all.take(i as int + 1);
        assert(next.drop_last() =~= all.take(i as int));
        assert(next.last() == profile.groups[i as int]@);
        proof {
            assert(i * (usize::MAX as u128 + 1) + usize::MAX as u128 + 1 == (i + 1) * (
            usize::MAX as u128 + 1)) by (nonlinear_arith);
            assert((i + 1) * (usize::MAX as u128 + 1) <= u64::MAX as int * (u64::MAX as int + 1))
                by (nonlinear_arith)
                requires
                    i + 1 <= u64::MAX,
                    usize::MAX as u128 + 1 <= u64::MAX as int + 1,
            ;
        }
        match find_group_named(groups, profile.groups[i].as_str()) {
            Some(at) => {
                assert(known[at as int] == groups[at as int]@);
                if groups[at].enabled {
                    scopes = scopes + groups[at].client_addresses.len() as u128;
                    if groups[at].client_cidrs.len() > 0 {
                        scopes = scopes + 1;
                    }
                }
            },
            None => {},
        }
        i = i + 1;
    }
    assert(all.take(i as int) =~= all);
    let domains: u128 = profile.domains.len() as u128;
    match domains.checked_mul(scopes) {
        Some(product) => {
            if product > usize::MAX as u128 {
                usize::MAX
            } else {
                product as usize
            }
        },
        None => usize::MAX,
    }
}

// ---- sources -------------------------------------------------------------------------

/// Where the country map comes from.
pub open spec fn map_kind(path: Option<Seq<char>>) -> Seq<char> {
    match path {
        None => "none"@,
        Some(source) => if http_parts(source) is Some {
            "hosted_http"@
        } else {
            "local_file"@
        },
    }
}

pub fn source_kind(path: Option<&str>) -> (r: &'static str)
    ensures
        r@ == map_kind(
            match path {
                Some(text) => Some(text@),
                None => None,
            },
        ),
{
    match path {
        None => "none",
        Some(source) => {
            if http_source_parts(source).is_some() {
                "hosted_http"
            } else {
                "local_file"
            }
        },
    }
}

/// What asking for a file gave.
#[derive(Clone, Copy, Debug, PartialEq, Eq, Structural)]
pub enum FileState {
    Missing,
    Unreadable,
    /// The seconds since the last change, where the clock allows to tell.
    Found { age_secs: Option<u64> },
}

/// The state of a local map: a word for it, its age, and whether it is fresh enough.
pub fn local_map_status(state: FileState, max_age_secs: Option<u64>) -> (r: (
    &'static str,
    Option<u64>,
    Option<bool>,
))
    ensures
        match state {
            FileState::Missing => r.0@ == "missing"@ && r.1 is None && r.2 == Some(false),
            FileState::Unreadable => r.0@ == "unreadable"@ && r.1 is None && r.2 == Some(false),
            FileState::Found { age_secs } => {
                &&& r.0@ == "ok"@
                &&& r.1 == age_secs
                &&& r.2 == (match (max_age_secs, age_secs) {
                    (None, _) => Some(true),
                    (Some(limit), Some(age)) => Some(age <= limit),
                    (Some(_), None) => None,
                })
            },
        },
{
    match state {
        FileState::Missing => ("missing", None, Some(false)),
        FileState::Unreadable => ("unreadable", None, Some(false)),
        FileState::Found { age_secs } => {
            let fresh = match (max_age_secs, age_secs) {
                (None, _) => Some(true),
                (Some(limit), Some(age)) => Some(age <= limit),
                (Some(_), None) => None,
            };
            ("ok", age_secs, fresh)
        },
    }
}

/// The state of the file of a filter list: a word for it, how much of it counts, and its age.
pub fn list_file_status(remote: bool, state: FileState, length: u64) -> (r: (
    &'static str,
    u64,
    Option<u64>,
))
    ensures
        if remote {
            r.0@ == "remote"@ && r.1 == 0 && r.2 is None
        } else {
            match state {
                FileState::Missing => r.0@ == "missing"@ && r.1 == 0 && r.2 is None,
                FileState::Unreadable => r.0@ == "unreadable"@ && r.1 == 0 && r.2 is None,
                FileState::Found { age_secs } => {
                    &&& r.0@ == "ok"@
                    &&& r.1 == (if length < MAX_BLOCKLIST_BYTES {
                        length
                    } else {
                        MAX_BLOCKLIST_BYTES
                    })
                    &&& r.2 == age_secs
                },
            }
        },
{
    if remote {
        return ("remote", 0, None);
    }
    match state {
        FileState::Missing => ("missing", 0, None),
        FileState::Unreadable => ("unreadable", 0, None),
        FileState::Found { age_secs } => {
            let bytes: u64 = if length < MAX_BLOCKLIST_BYTES {
                length
            } else {
                MAX_BLOCKLIST_BYTES
            };
            ("ok", bytes, age_secs)
        },
    }
}

/// What operators are told of one filter list.
#[derive(Clone, Copy, Debug, PartialEq, Eq)]
pub struct SourceStatus {
    pub enabled: bool,
    pub remote: bool,
    pub load_status: &'static str,
    pub rule_count: usize,
    pub fingerprint: Option<u64>,
}

/// The fingerprint of a local source that could be read.
pub open spec fn source_mark(source: SourceView) -> Option<u64> {
    match source.contents {
        Ok(bytes) => if http_parts(source.path) is Some {
            None
        } else {
            Some(fingerprint(bytes))
        },
        Err(_) => None,
    }
}

impl Policy {
    pub fn source_status(&self, source: BlocklistSource) -> (r: SourceStatus)
        requires
            self.wf(),
        ensures
            ({
                let view = source@;
                let remote = http_parts(view.path) is Some;
                let enabled = !self.tables@.disabled_paths.contains(view.path);
                &&& r.enabled == enabled
                &&& r.remote == remote
                &&& r.fingerprint == source_mark(view)
                &&& if !enabled {
                    r.load_status@ == "disabled"@ && r.rule_count == 0
                } else if remote {
                    r.load_status@ == "configured"@ && r.rule_count == 0
                } else {
                    match collected(seq![view]) {
                        Ok(lists) => r.load_status@ == "ok"@ && r.rule_count == list_rules(
                            remaining(lists),
                        ).len(),
                        Err(_) => r.load_status@ == "invalid"@ && r.rule_count == 0,
                    }
                }
            }),
    {
        let ghost view = source@;
        let chars = to_chars(source.path.as_str());
        let enabled = !self.tables.disabled_blocklist_paths.contains(&chars);
        let remote = http_source_parts(source.path.as_str()).is_some();
        let mark: Option<u64> = match &source.contents {
            Ok(bytes) => {
                if remote {
                    None
                } else {
                    Some(source_fingerprint(bytes))
                }
            },
            Err(_) => None,
        };
        let (load_status, rule_count) = if !enabled {
            ("disabled", 0)
        } else if remote {
            ("configured", 0)
        } else {
            let mut single: Vec<BlocklistSource> = Vec::new();
            single.push(source);
            assert(source_views(single@) =~= seq![view]);
            match load_blocklists(&single) {
                Ok(rules) => {
                    assert(crate::policy::rule_views(rules@).len() == rules@.len());
                    ("ok", rules.len())
                },
                Err(_) => ("invalid", 0),
            }
        };
        SourceStatus { enabled, remote, load_status, rule_count, fingerprint: mark }
    }
}

// ---- laws ----------------------------------------------------------------------------

/// The total is the sum of the counts, as long as it can be told.
pub proof fn totals_are_sums(counts: Seq<u64>, more: u64)
    ensures
        bounded_sum(Seq::<u64>::empty()) == 0,
        bounded_sum(counts) + more <= 0xffff_ffff_ffff_ffff ==> bounded_sum(counts.push(more))
            == bounded_sum(counts) + more,
        bounded_sum(counts) + more > 0xffff_ffff_ffff_ffff ==> bounded_sum(counts.push(more))
            == 0xffff_ffff_ffff_ffff,
{
    assert(counts.push(more).drop_last() =~= counts);
}

/// The rules for one identity are counted one by one.
pub proof fn identity_rules_are_counted(rules: Seq<RuleView>, rule: RuleView)
    ensures
        identity_rules(Seq::empty()) == 0,
        rule.client_identity is Some ==> identity_rules(rules.push(rule)) == identity_rules(rules)
            + 1,
        rule.client_identity is None ==> identity_rules(rules.push(rule)) == identity_rules(rules),
{
    assert(rules.push(rule).drop_last() =~= rules);
}

proof fn trimmed_names_find_the_same(groups: Seq<GroupView>, name: Seq<char>)
    requires
        trimmed(name) == name,
        forall|g: int|
            0 <= g < groups.len() ==> trimmed((#[trigger] groups[g]).name) == groups[g].name,
    ensures
        group_named(groups, name) == find_group(groups, key_of(name)),
    decreases groups.len(),
{
    if groups.len() > 0 {
        let front = groups.drop_last();
        assert forall|g: int| 0 <= g < front.len() implies trimmed((#[trigger] front[g]).name)
            == front[g].name by {
            assert(front[g] == groups[g]);
        }
        trimmed_names_find_the_same(front, name);
        assert(trimmed(groups[groups.len() - 1].name) == groups[groups.len() - 1].name);
    }
}

proof fn scopes_are_counted(groups: Seq<GroupView>, names: Seq<Seq<char>>)
    requires
        named_scopes(groups, names) is Ok,
        forall|k: int| 0 <= k < names.len() ==> trimmed(#[trigger] names[k]) == names[k],
        forall|g: int|
            0 <= g < groups.len() ==> trimmed((#[trigger] groups[g]).name) == groups[g].name,
    ensures
        named_scope_count(groups, names) == named_scopes(groups, names)->Ok_0.len(),
    decreases names.len(),
{
    if names.len() > 0 {
        let front = names.drop_last();
        assert forall|k: int| 0 <= k < front.len() implies trimmed(#[trigger] front[k])
            == front[k] by {
            assert(front[k] == names[k]);
        }
        scopes_are_counted(groups, front);
        assert(trimmed(names[names.len() - 1]) == names[names.len() - 1]);
        trimmed_names_find_the_same(groups, names.last());
        let g = find_group(groups, key_of(names.last()))->0;
        groups_stand_for_their_members(groups[g]);
    }
}

/// A profile is said to stand for as many rules as it gives, where no name has outer space.
pub proof fn profiles_stand_for_the_rules_they_give(profile: ProfileView, groups: Seq<GroupView>)
    requires
        profile.domains.len() > 0,
        expanded(groups, profile) is Ok,
        forall|k: int|
            0 <= k < profile.groups.len() ==> trimmed(#[trigger] profile.groups[k])
                == profile.groups[k],
        forall|g: int|
            0 <= g < groups.len() ==> trimmed((#[trigger] groups[g]).name) == groups[g].name,
    ensures
        profile.enabled ==> expanded_rules(profile, groups) == expanded(groups, profile)->Ok_0.len(),
        !profile.enabled ==> expanded_rules(profile, groups) == 0,
{
    let scopes = profile_scopes(groups, profile)->Ok_0;
    if profile.groups.len() > 0 {
        scopes_are_counted(groups, profile.groups);
    }
    let count = profile.domains.len() as int;
    let width = scopes.len() as int;
    let n = count * width;
    assert(count * 1 == count);
    assert(n >= 0) by (nonlinear_arith)
        requires
            count >= 0,
            width >= 0,
            n == count * width,
    ;
    assert(profile.domains.len() * scopes.len() == n);
    if profile.enabled {
        assert(expanded_rules(profile, groups) == n);
    }
    if n > 0 {
        profile_rules_are_numbered(profile, scopes, n, 0);
    } else {
        assert(profile_rules(profile, scopes, n)->Ok_0.len() == 0);
    }
}

/// A local source that was read is marked by its bytes; others have no mark.
pub proof fn read_sources_are_marked(source: SourceView)
    ensures
        source.contents is Err ==> source_mark(source) is None,
        http_parts(source.path) is Some ==> source_mark(source) is None,
        source.contents is Ok && http_parts(source.path) is None ==> source_mark(source) == Some(
            fingerprint(source.contents->Ok_0),
        ),
{
}

/// Looking at the log forgets what is too old and nothing else.
pub proof fn looking_forgets_what_is_too_old(before: Option<QueryLog>, after: Option<QueryLog>, now_ms: u64)
    requires
        log_trimmed(before, after, now_ms),
    ensures
        before is None <==> after is None,
        before matches Some(log) ==> after->0@ == retained(log@, cutoff(now_ms, log.retention_ms))
            && after->0.max_entries == log.max_entries && after->0.retention_ms == log.retention_ms,
{
}

} // verus!
