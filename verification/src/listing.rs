//! The bounded listings that operators see of the tables.
use vstd::prelude::*;
use vstd::string::*;

use crate::blocklist::SourceView;
use crate::bundle::{bundle_compiled, bundle_in_force, bundle_lists, bundle_replaced, BundleView};
use crate::config::{group_views, identity_views, profile_views, regex_views, rewrite_views,
    AdmissionConfig, ClientGroupConfig, ClientIdentityConfig, CountryPolicyConfig, Mode,
    RegexRuleConfig, RewriteConfig, ServiceProfileConfig};
use crate::country::{loaded, CountrySource};
use crate::items::copy_items;
use crate::legacy::accepted_domains_are_normal;
use crate::lists::copy_texts;
use crate::policy::{rule_views, Action, ErrorView, RuleConfig};
use crate::recording::MAX_ADMIN_LOG_ENTRIES;
use crate::regex_rules::published_rules;
use crate::runtime::Policy;
use crate::state::{ReloadState, Tables, TablesView};
use crate::text::{byte_len, decimal, push_all, str_len, texts, to_chars, to_decimal, to_text,
    views};
use crate::text_set::{sorted, sorted_is};

verus! {

/// The longest listing of rules, and the longest bundle, that is sent.
pub const MAX_ADMIN_RULES_BODY_BYTES: usize = 65_536;

/// How many entries of a table are listed, and whether that leaves some out.
pub fn page(total: usize) -> (r: (usize, bool))
    ensures
        r.0 <= total,
        r.0 <= MAX_ADMIN_LOG_ENTRIES,
        r.0 == total || r.0 == MAX_ADMIN_LOG_ENTRIES,
        r.1 == (r.0 < total),
{
    if total > MAX_ADMIN_LOG_ENTRIES {
        (MAX_ADMIN_LOG_ENTRIES, true)
    } else {
        (total, false)
    }
}

/// Texts with commas between them.
pub open spec fn with_commas(entries: Seq<Seq<char>>) -> Seq<char>
    decreases entries.len(),
{
    if entries.len() == 0 {
        Seq::empty()
    } else if entries.len() == 1 {
        entries[0]
    } else {
        with_commas(entries.drop_last()) + ","@ + entries.last()
    }
}

fn join_entries(entries: &[String], count: usize) -> (r: Vec<char>)
    requires
        count <= entries@.len(),
    ensures
        r@ == with_commas(texts(entries@).take(count as int)),
{
    let ghost all = texts(entries@);
    let comma = to_chars(",");
    let mut out: Vec<char> = Vec::new();
    let mut i: usize = 0;
    assert(out@ =~= with_commas(all.take(0)));
    while i < count
        invariant
            i <= count <= entries@.len(),
            all == texts(entries@),
            comma@ == ","@,
            out@ == with_commas(all.take(i as int)),
        decreases count - i,
    {
        let ghost next = all.take(i as int + 1);
        assert(next.drop_last() =~= all.take(i as int));
        assert(next.last() == entries@[i as int]@);
        let one = to_chars(entries[i].as_str());
        if i > 0 {
            push_all(&mut out, &comma);
        }
        push_all(&mut out, &one);
        assert(out@ =~= with_commas(next));
        i = i + 1;
    }
    out
}

/// The listing of the first `count` rules, which says how many there are and whether some are left
/// out. The entries are written already.
pub open spec fn rules_text(entries: Seq<Seq<char>>, count: int) -> Seq<char> {
    "{\"rules\":["@ + with_commas(entries.take(count)) + "],\"total\":"@ + decimal(entries.len())
        + ",\"truncated\":"@ + (if count < entries.len() {
        "true"@
    } else {
        "false"@
    }) + "}"@
}

/// Whether a listing of the first `count` rules can be sent: it is short enough, or cannot be made
/// shorter.
pub open spec fn listable(entries: Seq<Seq<char>>, count: int) -> bool {
    count <= 1 || byte_len(rules_text(entries, count)) <= MAX_ADMIN_RULES_BODY_BYTES
}

/// How many of the first `most` rules are listed.
pub open spec fn listed_count(entries: Seq<Seq<char>>, most: int) -> int
    decreases most,
{
    if most <= 0 || listable(entries, most) {
        most
    } else {
        listed_count(entries, most - 1)
    }
}

fn rules_listing(entries: &[String], count: usize) -> (r: String)
    requires
        count <= entries@.len(),
    ensures
        r@ == rules_text(texts(entries@), count as int),
{
    let mut out = to_chars("{\"rules\":[");
    let list = join_entries(entries, count);
    push_all(&mut out, &list);
    let part = to_chars("],\"total\":");
    push_all(&mut out, &part);
    let total = to_decimal(entries.len() as u64);
    push_all(&mut out, &total);
    let part = to_chars(",\"truncated\":");
    push_all(&mut out, &part);
    let part = if count < entries.len() {
        to_chars("true")
    } else {
        to_chars("false")
    };
    push_all(&mut out, &part);
    let part = to_chars("}");
    push_all(&mut out, &part);
    assert(out@ =~= rules_text(texts(entries@), count as int));
    to_text(&out)
}

/// The listing of the rules: as many of the first as can be sent.
pub fn rules_body(entries: &[String]) -> (r: String)
    ensures
        r@ == rules_text(
            texts(entries@),
            listed_count(texts(entries@), texts(entries@).len() as int),
        ),
{
    let ghost all = texts(entries@);
    let mut count: usize = entries.len();
    loop
        invariant
            count <= entries@.len(),
            all == texts(entries@),
            listed_count(all, all.len() as int) == listed_count(all, count as int),
        decreases count,
    {
        let body = rules_listing(entries, count);
        if count <= 1 || str_len(body.as_str()) <= MAX_ADMIN_RULES_BODY_BYTES {
            return body;
        }
        count = count - 1;
    }
}

/// A written bundle, where it is short enough to be sent.
pub fn bundle_body(encoded: String) -> (r: Result<String, &'static str>)
    ensures
        if byte_len(encoded@) <= MAX_ADMIN_RULES_BODY_BYTES {
            r == Ok::<String, &'static str>(encoded)
        } else {
            r is Err && r->Err_0@ == "policy bundle exceeds the bounded editor response"@
        },
{
    if str_len(encoded.as_str()) <= MAX_ADMIN_RULES_BODY_BYTES {
        Ok(encoded)
    } else {
        Err("policy bundle exceeds the bounded editor response")
    }
}

/// A listing holds the first rules, as many as fit: it is short enough unless it holds one rule or
/// none, and a longer one would not be.
pub proof fn listings_hold_what_fits(entries: Seq<Seq<char>>, most: int)
    requires
        0 <= most,
    ensures
        ({
            let count = listed_count(entries, most);
            &&& 0 <= count <= most
            &&& listable(entries, count)
            &&& most > 0 ==> count > 0
            &&& forall|longer: int| count < longer <= most ==> !#[trigger] listable(entries, longer)
        }),
    decreases most,
{
    if most > 0 && !listable(entries, most) {
        listings_hold_what_fits(entries, most - 1);
    }
}

// ---- the bundle ----------------------------------------------------------------------

/// The tables that operators edit, as they are shown to them. The filter sources are left out: a
/// bundle without them keeps those that are configured.
pub open spec fn bundle_shown(tables: TablesView) -> BundleView {
    BundleView {
        rules: tables.explicit_rules,
        regex_rules: published_rules(tables.regex_rules),
        profiles: tables.profiles,
        client_groups: tables.client_groups,
        client_identities: tables.client_identities,
        rewrites: tables.rewrite_configs,
        country: tables.country_config,
        paths: None,
        keep_lists: false,
        mode: Some(tables.legacy_mode),
        domains: Some(tables.legacy_domains),
        default_action: Some(tables.default_action),
        filtering_enabled: Some(tables.filtering_enabled),
        disabled: Some(sorted(tables.disabled_paths)),
        admission: Some(tables.admission),
    }
}

/// The tables that operators edit.
#[derive(Debug)]
pub struct ShownBundle {
    pub mode: Mode,
    pub domains: Vec<String>,
    pub default_action: Action,
    pub filtering_enabled: bool,
    pub rules: Vec<RuleConfig>,
    pub regex_rules: Vec<RegexRuleConfig>,
    pub profiles: Vec<ServiceProfileConfig>,
    pub client_groups: Vec<ClientGroupConfig>,
    pub client_identities: Vec<ClientIdentityConfig>,
    pub rewrites: Vec<RewriteConfig>,
    pub country_policy: CountryPolicyConfig,
    pub disabled_blocklists: Vec<String>,
    pub admission: AdmissionConfig,
}

impl View for ShownBundle {
    type V = BundleView;

    open spec fn view(&self) -> BundleView {
        BundleView {
            rules: rule_views(self.rules@),
            regex_rules: regex_views(self.regex_rules@),
            profiles: profile_views(self.profiles@),
            client_groups: group_views(self.client_groups@),
            client_identities: identity_views(self.client_identities@),
            rewrites: rewrite_views(self.rewrites@),
            country: self.country_policy@,
            paths: None,
            keep_lists: false,
            mode: Some(self.mode),
            domains: Some(texts(self.domains@)),
            default_action: Some(self.default_action),
            filtering_enabled: Some(self.filtering_enabled),
            disabled: Some(texts(self.disabled_blocklists@)),
            admission: Some(self.admission@),
        }
    }
}

impl Policy {
    /// The tables that operators edit, to be shown to them.
    pub fn policy_bundle(&self) -> (r: ShownBundle)
        requires
            self.wf(),
        ensures
            r@ == bundle_shown(self.tables@),
    {
        let tables = &self.tables;
        let r = ShownBundle {
            mode: tables.legacy_mode,
            domains: copy_texts(&tables.legacy_domains),
            default_action: tables.default_action,
            filtering_enabled: tables.filtering_enabled,
            rules: copy_items(&tables.explicit_rules),
            regex_rules: tables.regex_rules.regex_rule_configs(),
            profiles: copy_items(&tables.profiles),
            client_groups: copy_items(&tables.client_groups),
            client_identities: copy_items(&tables.client_identities),
            rewrites: copy_items(&tables.rewrite_configs),
            country_policy: tables.country_policy_config.copied(),
            disabled_blocklists: tables.disabled_blocklist_paths.to_list(),
            admission: tables.admission.copied(),
        };
        assert(rule_views(r.rules@) =~= tables@.explicit_rules);
        assert(profile_views(r.profiles@) =~= tables@.profiles);
        assert(group_views(r.client_groups@) =~= tables@.client_groups);
        assert(identity_views(r.client_identities@) =~= tables@.client_identities);
        assert(rewrite_views(r.rewrites@) =~= tables@.rewrite_configs);
        r
    }
}

/// A bundle that is shown changes nothing when it is sent back as it is and accepted, while the
/// sources read as they did.
pub proof fn a_shown_bundle_changes_nothing(
    tables: &Tables,
    files: Seq<SourceView>,
    source: CountrySource,
    inflight: usize,
)
    requires
        tables.wf(),
        bundle_replaced(tables@, bundle_shown(tables@), files, source, inflight) is Ok,
        loaded(tables@.country_config, source) == Ok::<_, ErrorView>(tables@.country),
        bundle_lists(tables@, bundle_shown(tables@), files) == Ok::<_, ErrorView>(
            tables@.blocklist_rules,
        ),
    ensures
        bundle_replaced(tables@, bundle_shown(tables@), files, source, inflight) == Ok::<
            _,
            ErrorView,
        >((ReloadState::Unchanged, tables@)),
{
    sorted_is(views(tables.disabled_blocklist_paths.items@));
    let tables = tables@;
    let bundle = bundle_shown(tables);
    let compiled = bundle_compiled(tables, bundle, files, source, inflight)->Ok_0;
    accepted_domains_are_normal(tables.legacy_domains);
    assert(bundle_in_force(tables, bundle, compiled));
}

/// Entries stand one behind the other with a comma between them.
pub proof fn commas_stand_between_entries(entries: Seq<Seq<char>>, entry: Seq<char>)
    ensures
        with_commas(Seq::empty()).len() == 0,
        with_commas(seq![entry]) == entry,
        entries.len() > 0 ==> with_commas(entries.push(entry)) == with_commas(entries) + seq![',']
            + entry,
{
    reveal_strlit(",");
    assert(","@ =~= seq![',']);
    assert(entries.push(entry).drop_last() =~= entries);
}

} // verus!
