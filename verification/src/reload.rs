//! Changes of the rules while running. A change is checked as a whole before anything is
//! published, and a refused change leaves everything as it was.
use vstd::prelude::*;
use vstd::string::*;

use crate::config::{regex_views, RegexRuleConfig, RegexRuleView};
use crate::items::{append_items, copy_items, find_repeat, first_repeat, item_views, keep_items, kept,
    kept_are_not_gone, lists_lose_what_goes, loses, repeated_keys_are_found, same_items,
    updates_are_in_the_list, upsert_items, upserted, upserts_leave_the_others};
use crate::lists::has_u32;
use crate::policy::{compiled, compiled_policy, has_id, rule_views, ErrorView, PolicyError,
    ReferencePolicy, RuleConfig, RuleView, MAX_RULES};
use crate::profiles::{compiled_profiles, profile_error};
use crate::regex_rules::{compile_regex_rules, compiled_expressions_keep_their_places, compiled_regex,
    published_rule, published_rules, regex_meaning, RegexMeaning};
use crate::runtime::Policy;
use crate::state::{compiled_from, compiled_regex_does_not_clash, find_clash, first_clash, ids_of,
    is_regex_id, no_clash_is_disjoint, performed, published, renewed, rule_ids, rules_published, Change,
    ReloadState, Tables, TablesView};

verus! {

fn refuse_profile(name: &str, reason: &str) -> (r: PolicyError)
    ensures
        r@ == profile_error(name@, reason@),
{
    PolicyError::InvalidProfile { name: name.to_owned(), reason: reason.to_owned() }
}

// ---- domain rules --------------------------------------------------------------------

/// Replacing the explicit rules.
pub open spec fn rules_replaced(tables: TablesView, rules: Seq<RuleView>) -> Change {
    match compiled_profiles(tables.profiles, tables.client_groups) {
        Err(error) => Err(error),
        Ok(generated) => rules_published(tables, rules + generated, rules),
    }
}

/// The number of the first rule that one of the others carries too.
pub open spec fn first_shared(rules: Seq<RuleView>, others: Seq<RuleView>) -> Option<u32>
    decreases rules.len(),
{
    if rules.len() == 0 {
        None
    } else {
        match first_shared(rules.drop_last(), others) {
            Some(id) => Some(id),
            None => if has_id(others, rules.last().id) {
                Some(rules.last().id)
            } else {
                None
            },
        }
    }
}

/// What is wrong with proposed explicit rules. Those of the profiles count too, and no number may
/// be that of a rule with an expression or of a filter list.
pub open spec fn proposed_rules_fault(tables: TablesView, rules: Seq<RuleView>) -> Option<ErrorView> {
    if rules.len() == 0 {
        Some(profile_error("<rule-validation>"@, "at least one rule is required"@))
    } else {
        match compiled_profiles(tables.profiles, tables.client_groups) {
            Err(error) => Some(error),
            Ok(generated) => match compiled_policy(rules + generated) {
                Err(error) => Some(error),
                Ok(_) => match first_clash(rules + generated, tables.regex_rules) {
                    Some(id) => Some(ErrorView::DuplicateRule { id }),
                    None => match first_shared(tables.blocklist_rules, rules + generated) {
                        Some(id) => Some(ErrorView::DuplicateRule { id }),
                        None => None,
                    },
                },
            },
        }
    }
}

proof fn first_shared_stays(rules: Seq<RuleView>, others: Seq<RuleView>, n: int)
    requires
        0 <= n <= rules.len(),
        first_shared(rules.take(n), others) is Some,
    ensures
        first_shared(rules, others) == first_shared(rules.take(n), others),
    decreases rules.len(),
{
    if n == rules.len() {
        assert(rules.take(n) =~= rules);
    } else {
        assert(rules.drop_last().take(n) =~= rules.take(n));
        first_shared_stays(rules.drop_last(), others, n);
    }
}

fn find_shared(rules: &[RuleConfig], others: &[RuleConfig]) -> (r: Option<u32>)
    ensures
        r == first_shared(rule_views(rules@), rule_views(others@)),
{
    let ghost all = rule_views(rules@);
    let taken = rule_ids(others);
    let mut i: usize = 0;
    while i < rules.len()
        invariant
            i <= rules.len(),
            all == rule_views(rules@),
            taken@ == ids_of(rule_views(others@)),
            first_shared(all.take(i as int), rule_views(others@)) is None,
        decreases rules.len() - i,
    {
        let ghost next = all.take(i as int + 1);
        assert(next.drop_last() =~= all.take(i as int));
        assert(next.last() == rules[i as int]@);
        let id: u32 = rules[i].id;
        assert(taken@.contains(id) == has_id(rule_views(others@), id)) by {
            if taken@.contains(id) {
                let k = choose|k: int| 0 <= k < taken@.len() && taken@[k] == id;
                assert(rule_views(others@)[k].id == id);
            }
            if has_id(rule_views(others@), id) {
                let k = choose|k: int|
                    0 <= k < rule_views(others@).len() && (#[trigger] rule_views(others@)[k]).id == id;
                assert(taken@[k] == id);
            }
        }
        if has_u32(&taken, id) {
            assert(first_shared(next, rule_views(others@)) == Some(id));
            proof {
                first_shared_stays(all, rule_views(others@), i as int + 1);
            }
            return Some(id);
        }
        i = i + 1;
    }
    assert(all.take(i as int) =~= all);
    None
}

/// Replacing or adding explicit rules by their numbers.
pub open spec fn rules_upserted(tables: TablesView, updates: Seq<RuleView>) -> Change {
    if updates.len() == 0 {
        Err(profile_error("<rule-upsert>"@, "at least one rule is required"@))
    } else {
        match first_repeat::<RuleConfig>(updates) {
            Some(i) => Err(ErrorView::DuplicateRule { id: updates[i].id }),
            None => rules_replaced(
                tables,
                upserted::<RuleConfig>(tables.explicit_rules, updates),
            ),
        }
    }
}

/// Removing explicit rules by their numbers.
pub open spec fn rules_removed(tables: TablesView, ids: Seq<u32>) -> Change {
    let gone = |rule: RuleView| ids.contains(rule.id);
    if ids.len() == 0 {
        Err(profile_error("<rule-removal>"@, "at least one rule ID is required"@))
    } else if !loses(tables.explicit_rules, gone) {
        Err(profile_error("<rule-removal>"@, "no requested rule ID exists"@))
    } else {
        rules_replaced(tables, kept(tables.explicit_rules, gone))
    }
}

fn mark_rules(rules: &[RuleConfig], ids: &[u32]) -> (r: Vec<bool>)
    ensures
        r@.len() == rules@.len(),
        forall|i: int| 0 <= i < rules@.len() ==> #[trigger] r@[i] == ids@.contains(rules@[i]@.id),
{
    let mut out: Vec<bool> = Vec::new();
    let mut i: usize = 0;
    while i < rules.len()
        invariant
            i <= rules.len(),
            out@.len() == i,
            forall|k: int| 0 <= k < i ==> #[trigger] out@[k] == ids@.contains(rules@[k]@.id),
        decreases rules.len() - i,
    {
        out.push(has_u32(ids, rules[i].id));
        i = i + 1;
    }
    out
}

impl Tables {
    /// Publishes other explicit rules, with those of the profiles.
    pub fn replace_rules(&mut self, rules: Vec<RuleConfig>) -> (r: Result<ReloadState, PolicyError>)
        requires
            old(self).wf(),
        ensures
            performed(
                rules_replaced(old(self)@, rule_views(rules@)),
                old(self)@,
                final(self)@,
                r,
            ),
            final(self).wf(),
    {
        let generated = match self.current_profile_rules() {
            Ok(generated) => generated,
            Err(error) => {
                return Err(error);
            },
        };
        let mut combined = copy_items(&rules);
        append_items(&mut combined, &generated);
        self.publish_rules(combined, rules)
    }
}

impl Policy {
    /// Checks and publishes a complete replacement of the explicit rules.
    pub fn reload_rules(&mut self, rules: &[RuleConfig]) -> (r: Result<ReloadState, PolicyError>)
        requires
            old(self).wf(),
        ensures
            performed(
                rules_replaced(old(self).tables@, rule_views(rules@)),
                old(self).tables@,
                final(self).tables@,
                r,
            ),
            final(self).only_tables(old(self)),
            final(self).wf(),
    {
        self.tables.replace_rules(copy_items(rules))
    }

    /// Checks proposed explicit rules without publishing them.
    pub fn validate_rules(&self, rules: &[RuleConfig]) -> (r: Result<(), PolicyError>)
        ensures
            match proposed_rules_fault(self.tables@, rule_views(rules@)) {
                Some(error) => r is Err && r->Err_0@ == error,
                None => r is Ok,
            },
    {
        if rules.len() == 0 {
            return Err(refuse_profile("<rule-validation>", "at least one rule is required"));
        }
        let generated = match self.tables.current_profile_rules() {
            Ok(generated) => generated,
            Err(error) => {
                return Err(error);
            },
        };
        let mut combined = copy_items(rules);
        append_items(&mut combined, &generated);
        match ReferencePolicy::new(&combined) {
            Ok(_) => {},
            Err(error) => {
                return Err(error);
            },
        }
        match find_clash(&combined, &self.tables.regex_rules) {
            Some(id) => {
                return Err(PolicyError::DuplicateRule { id });
            },
            None => {},
        }
        match find_shared(&self.tables.blocklist_rules, &combined) {
            Some(id) => Err(PolicyError::DuplicateRule { id }),
            None => Ok(()),
        }
    }

    /// Adds explicit rules behind those there are.
    pub fn append_rules(&mut self, additions: &[RuleConfig]) -> (r: Result<ReloadState, PolicyError>)
        requires
            old(self).wf(),
        ensures
            performed(
                rules_replaced(
                    old(self).tables@,
                    old(self).tables@.explicit_rules + rule_views(additions@),
                ),
                old(self).tables@,
                final(self).tables@,
                r,
            ),
            final(self).only_tables(old(self)),
            final(self).wf(),
    {
        let mut explicit = copy_items(&self.tables.explicit_rules);
        append_items(&mut explicit, additions);
        self.tables.replace_rules(explicit)
    }

    /// Replaces explicit rules by their numbers, and adds those with new numbers.
    pub fn upsert_rules(&mut self, updates: &[RuleConfig]) -> (r: Result<ReloadState, PolicyError>)
        requires
            old(self).wf(),
        ensures
            performed(
                rules_upserted(old(self).tables@, rule_views(updates@)),
                old(self).tables@,
                final(self).tables@,
                r,
            ),
            final(self).only_tables(old(self)),
            final(self).wf(),
    {
        if updates.len() == 0 {
            return Err(refuse_profile("<rule-upsert>", "at least one rule is required"));
        }
        match find_repeat(updates) {
            Some(i) => {
                assert(rule_views(updates@)[i as int] == updates@[i as int]@);
                return Err(PolicyError::DuplicateRule { id: updates[i].id });
            },
            None => {},
        }
        let explicit = upsert_items(&self.tables.explicit_rules, updates);
        self.tables.replace_rules(explicit)
    }

    /// Removes explicit rules by their numbers.
    pub fn remove_rules(&mut self, ids: &[u32]) -> (r: Result<ReloadState, PolicyError>)
        requires
            old(self).wf(),
        ensures
            performed(
                rules_removed(old(self).tables@, ids@),
                old(self).tables@,
                final(self).tables@,
                r,
            ),
            final(self).only_tables(old(self)),
            final(self).wf(),
    {
        if ids.len() == 0 {
            return Err(refuse_profile("<rule-removal>", "at least one rule ID is required"));
        }
        let ghost gone = |rule: RuleView| ids@.contains(rule.id);
        let marks = mark_rules(&self.tables.explicit_rules, ids);
        let next = keep_items(&self.tables.explicit_rules, &marks, Ghost(gone));
        assert(item_views(next@).len() == next@.len());
        if next.len() == self.tables.explicit_rules.len() {
            return Err(refuse_profile("<rule-removal>", "no requested rule ID exists"));
        }
        self.tables.replace_rules(next)
    }

    /// Forgets the cached answers. The result is how many there were.
    pub fn clear_cache(&mut self) -> (r: usize)
        requires
            old(self).wf(),
        ensures
            r == old(self).tables@.cache.len(),
            final(self).tables@ == (TablesView { cache: Seq::empty(), ..old(self).tables@ }),
            final(self).only_tables(old(self)),
            final(self).wf(),
    {
        let removed: usize = self.tables.cache.len();
        self.tables.cache.clear();
        removed
    }
}

// ---- rules with expressions ----------------------------------------------------------

/// Publishing other rules with expressions.
pub open spec fn regex_published(tables: TablesView, configs: Seq<RegexRuleView>) -> Change {
    match compiled_regex(configs, ids_of(published(tables))) {
        Err(error) => Err(error),
        Ok(regex_rules) => Ok(
            (ReloadState::Published, renewed(TablesView { regex_rules, ..tables })),
        ),
    }
}

/// Replacing the rules with expressions.
pub open spec fn regex_replaced(tables: TablesView, configs: Seq<RegexRuleView>) -> Change {
    match compiled_regex(configs, ids_of(published(tables))) {
        Err(error) => Err(error),
        Ok(_) => if published_rules(tables.regex_rules) == configs {
            Ok((ReloadState::Unchanged, tables))
        } else {
            regex_published(tables, configs)
        },
    }
}

/// Replacing or adding rules with expressions by their numbers.
pub open spec fn regex_upserted(tables: TablesView, updates: Seq<RegexRuleView>) -> Change {
    if updates.len() == 0 {
        Err(profile_error("<regex-upsert>"@, "at least one regex rule is required"@))
    } else {
        match first_repeat::<RegexRuleConfig>(updates) {
            Some(i) => Err(ErrorView::DuplicateRule { id: updates[i].id }),
            None => regex_published(
                tables,
                upserted::<RegexRuleConfig>(published_rules(tables.regex_rules), updates),
            ),
        }
    }
}

/// Removing rules with expressions by their numbers.
pub open spec fn regex_removed(tables: TablesView, ids: Seq<u32>) -> Change {
    let gone = |rule: RegexRuleView| ids.contains(rule.id);
    let current = published_rules(tables.regex_rules);
    if ids.len() == 0 {
        Err(profile_error("<regex-removal>"@, "at least one regex rule ID is required"@))
    } else if !loses(current, gone) {
        Err(profile_error("<regex-removal>"@, "no requested regex rule ID exists"@))
    } else {
        regex_published(tables, kept(current, gone))
    }
}

fn mark_regex(rules: &[RegexRuleConfig], ids: &[u32]) -> (r: Vec<bool>)
    ensures
        r@.len() == rules@.len(),
        forall|i: int| 0 <= i < rules@.len() ==> #[trigger] r@[i] == ids@.contains(rules@[i]@.id),
{
    let mut out: Vec<bool> = Vec::new();
    let mut i: usize = 0;
    while i < rules.len()
        invariant
            i <= rules.len(),
            out@.len() == i,
            forall|k: int| 0 <= k < i ==> #[trigger] out@[k] == ids@.contains(rules@[k]@.id),
        decreases rules.len() - i,
    {
        out.push(has_u32(ids, rules[i].id));
        i = i + 1;
    }
    out
}

impl Tables {
    /// Compiles other rules with expressions, and publishes them.
    pub fn publish_regex(&mut self, configs: &[RegexRuleConfig]) -> (r: Result<
        ReloadState,
        PolicyError,
    >)
        requires
            old(self).wf(),
        ensures
            performed(
                regex_published(old(self)@, regex_views(configs@)),
                old(self)@,
                final(self)@,
                r,
            ),
            final(self).wf(),
    {
        let rules = self.published_rules();
        let ids = rule_ids(&rules);
        match compile_regex_rules(configs, &ids) {
            Ok(compiled) => {
                proof {
                    compiled_regex_does_not_clash(rule_views(rules@), regex_views(configs@));
                }
                self.regex_rules = compiled;
                self.renew();
                Ok(ReloadState::Published)
            },
            Err(error) => Err(error),
        }
    }
}

impl Policy {
    /// Compiles and publishes a complete replacement of the rules with expressions.
    pub fn reload_regex_rules(&mut self, configs: &[RegexRuleConfig]) -> (r: Result<
        ReloadState,
        PolicyError,
    >)
        requires
            old(self).wf(),
        ensures
            performed(
                regex_replaced(old(self).tables@, regex_views(configs@)),
                old(self).tables@,
                final(self).tables@,
                r,
            ),
            final(self).only_tables(old(self)),
            final(self).wf(),
    {
        match self.validate_regex_rules(configs) {
            Ok(()) => {},
            Err(error) => {
                return Err(error);
            },
        }
        let current = self.tables.regex_rules.regex_rule_configs();
        if same_items(&current, configs) {
            return Ok(ReloadState::Unchanged);
        }
        self.tables.publish_regex(configs)
    }

    /// Checks proposed rules with expressions without publishing them.
    pub fn validate_regex_rules(&self, configs: &[RegexRuleConfig]) -> (r: Result<(), PolicyError>)
        ensures
            match compiled_regex(regex_views(configs@), ids_of(published(self.tables@))) {
                Ok(_) => r is Ok,
                Err(error) => r is Err && r->Err_0@ == error,
            },
    {
        let rules = self.tables.published_rules();
        let ids = rule_ids(&rules);
        match compile_regex_rules(configs, &ids) {
            Ok(_) => Ok(()),
            Err(error) => Err(error),
        }
    }

    /// Replaces rules with expressions by their numbers, and adds those with new numbers.
    pub fn upsert_regex_rules(&mut self, updates: &[RegexRuleConfig]) -> (r: Result<
        ReloadState,
        PolicyError,
    >)
        requires
            old(self).wf(),
        ensures
            performed(
                regex_upserted(old(self).tables@, regex_views(updates@)),
                old(self).tables@,
                final(self).tables@,
                r,
            ),
            final(self).only_tables(old(self)),
            final(self).wf(),
    {
        if updates.len() == 0 {
            return Err(refuse_profile("<regex-upsert>", "at least one regex rule is required"));
        }
        match find_repeat(updates) {
            Some(i) => {
                assert(regex_views(updates@)[i as int] == updates@[i as int]@);
                return Err(PolicyError::DuplicateRule { id: updates[i].id });
            },
            None => {},
        }
        let current = self.tables.regex_rules.regex_rule_configs();
        let next = upsert_items(&current, updates);
        self.tables.publish_regex(&next)
    }

    /// Removes rules with expressions by their numbers.
    pub fn remove_regex_rules(&mut self, ids: &[u32]) -> (r: Result<ReloadState, PolicyError>)
        requires
            old(self).wf(),
        ensures
            performed(
                regex_removed(old(self).tables@, ids@),
                old(self).tables@,
                final(self).tables@,
                r,
            ),
            final(self).only_tables(old(self)),
            final(self).wf(),
    {
        if ids.len() == 0 {
            return Err(
                refuse_profile("<regex-removal>", "at least one regex rule ID is required"),
            );
        }
        let current = self.tables.regex_rules.regex_rule_configs();
        let ghost gone = |rule: RegexRuleView| ids@.contains(rule.id);
        let marks = mark_regex(&current, ids);
        let next = keep_items(&current, &marks, Ghost(gone));
        assert(item_views(next@).len() == next@.len());
        assert(item_views(current@).len() == current@.len());
        if next.len() == current.len() {
            return Err(refuse_profile("<regex-removal>", "no requested regex rule ID exists"));
        }
        self.tables.publish_regex(&next)
    }
}

// ---- laws ----------------------------------------------------------------------------

// Rules that were compiled behind others compile behind these too, where no number is shared.
proof fn compiled_together(base: Seq<RuleView>, before: Seq<RuleView>, lists: Seq<RuleView>)
    requires
        compiled(base) is Ok,
        compiled(before + lists) is Ok,
        first_shared(lists, base) is None,
    ensures
        compiled(base + lists) is Ok,
    decreases lists.len(),
{
    if lists.len() == 0 {
        assert(base + lists =~= base);
    } else {
        let front = lists.drop_last();
        assert((before + lists).drop_last() =~= before + front);
        assert((before + lists).last() == lists.last());
        compiled_together(base, before, front);
        assert((base + lists).drop_last() =~= base + front);
        assert((base + lists).last() == lists.last());
        let id = lists.last().id;
        assert(!has_id(base + front, id)) by {
            if has_id(base + front, id) {
                let k = choose|k: int|
                    0 <= k < (base + front).len() && (#[trigger] (base + front)[k]).id == id;
                if k < base.len() {
                    assert(base[k].id == id);
                    assert(has_id(base, id));
                } else {
                    assert((before + front)[before.len() + k - base.len()].id == id);
                    assert(has_id(before + front, id));
                }
            }
        }
    }
}

/// Explicit rules that pass the check do not fail when they are published, unless the filter lists
/// leave no room for them: no number collides with that of another table.
pub proof fn checked_rules_do_not_collide(tables: TablesView, rules: Seq<RuleView>)
    requires
        compiled_from(tables),
        proposed_rules_fault(tables, rules) is None,
    ensures
        match rules_replaced(tables, rules) {
            Ok(_) => true,
            Err(error) => error == (ErrorView::TooManyRules { max: MAX_RULES }),
        },
{
    let generated = compiled_profiles(tables.profiles, tables.client_groups)->Ok_0;
    let base = rules + generated;
    let lists = tables.blocklist_rules;
    let now = published(tables);
    let all = base + lists;
    no_clash_is_disjoint(base, tables.regex_rules);
    no_clash_is_disjoint(now, tables.regex_rules);
    no_clash_is_disjoint(all, tables.regex_rules);
    let shift = tables.base_rules.len();
    assert forall|i: int| 0 <= i < lists.len() implies #[trigger] lists[i] == now[shift + i] by {}
    assert(first_clash(all, tables.regex_rules) is None) by {
        assert forall|i: int| 0 <= i < all.len() implies !is_regex_id(
            tables.regex_rules,
            (#[trigger] all[i]).id,
        ) by {
            if i < base.len() {
                assert(all[i] == base[i]);
            } else {
                assert(all[i] == now[shift + i - base.len()]);
            }
        }
    }
    compiled_together(base, tables.base_rules, lists);
}

/// Editing some rules with expressions leaves the others as they are, the disabled ones among them.
pub proof fn edits_keep_the_other_expressions(
    tables: TablesView,
    updates: Seq<RegexRuleView>,
    i: int,
)
    requires
        compiled_from(tables),
        regex_upserted(tables, updates) is Ok,
        0 <= i < tables.regex_rules.len(),
        forall|k: int|
            0 <= k < updates.len() ==> (#[trigger] updates[k]).id != tables.regex_rules[i].id,
    ensures
        ({
            let (_, after) = regex_upserted(tables, updates)->Ok_0;
            after.regex_rules.len() >= tables.regex_rules.len() && after.regex_rules[i]
                == tables.regex_rules[i]
        }),
{
    let current = published_rules(tables.regex_rules);
    let next = upserted::<RegexRuleConfig>(current, updates);
    upserts_leave_the_others::<RegexRuleConfig>(current, updates, i);
    compiled_expressions_keep_their_places(next, ids_of(published(tables)), i);
    assert(regex_meaning(published_rule(tables.regex_rules[i]), None) is Ok);
}

/// Replaced rules are in force as they were given, those of the profiles behind them; the filter
/// lists, the profiles and the groups stay.
pub proof fn replaced_rules_are_in_force(tables: TablesView, rules: Seq<RuleView>)
    requires
        compiled_from(tables),
        rules_replaced(tables, rules) is Ok,
    ensures
        ({
            let (_, next) = rules_replaced(tables, rules)->Ok_0;
            &&& next.explicit_rules == rules
            &&& compiled_profiles(tables.profiles, tables.client_groups) matches Ok(generated)
                && next.base_rules == rules + generated
            &&& next.blocklist_rules == tables.blocklist_rules
            &&& next.profiles == tables.profiles && next.client_groups == tables.client_groups
            &&& next.blocklist_paths == tables.blocklist_paths
        }),
{
}

/// Rules that are put in by number are in force afterwards, and the rules with other numbers stay
/// in their places. An empty request, or one that gives a number twice, is refused.
pub proof fn upserted_rules_are_in_force(
    tables: TablesView,
    updates: Seq<RuleView>,
    k: int,
    i: int,
)
    requires
        compiled_from(tables),
    ensures
        updates.len() == 0 ==> rules_upserted(tables, updates) is Err,
        0 <= k < i < updates.len() && updates[k].id == updates[i].id ==> rules_upserted(
            tables,
            updates,
        ) is Err,
        rules_upserted(tables, updates) matches Ok((_, next)) ==> {
            &&& 0 <= k < updates.len() ==> next.explicit_rules.contains(updates[k])
            &&& 0 <= i < tables.explicit_rules.len() && (forall|j: int|
                0 <= j < updates.len() ==> (#[trigger] updates[j]).id
                    != tables.explicit_rules[i].id) ==> next.explicit_rules[i]
                == tables.explicit_rules[i]
        },
{
    if 0 <= k < i < updates.len() && updates[k].id == updates[i].id {
        repeated_keys_are_found::<RuleConfig>(updates, k, i);
    }
    if rules_upserted(tables, updates) is Ok {
        let all = upserted::<RuleConfig>(tables.explicit_rules, updates);
        replaced_rules_are_in_force(tables, all);
        if 0 <= k < updates.len() {
            updates_are_in_the_list::<RuleConfig>(tables.explicit_rules, updates, k);
        }
        if 0 <= i < tables.explicit_rules.len() && (forall|j: int|
            0 <= j < updates.len() ==> (#[trigger] updates[j]).id != tables.explicit_rules[i].id) {
            upserts_leave_the_others::<RuleConfig>(tables.explicit_rules, updates, i);
        }
    }
}

/// Rules that are removed by number are gone, and all others stay. A request that no rule answers
/// to is refused.
pub proof fn removed_rules_are_gone(tables: TablesView, ids: Seq<u32>, i: int)
    requires
        compiled_from(tables),
    ensures
        ids.len() == 0 ==> rules_removed(tables, ids) is Err,
        (forall|k: int|
            0 <= k < tables.explicit_rules.len() ==> !ids.contains(
                (#[trigger] tables.explicit_rules[k]).id,
            )) ==> rules_removed(tables, ids) is Err,
        rules_removed(tables, ids) matches Ok((_, next)) ==> {
            &&& next.explicit_rules.len() < tables.explicit_rules.len()
            &&& 0 <= i < next.explicit_rules.len() ==> !ids.contains(next.explicit_rules[i].id)
                && tables.explicit_rules.contains(next.explicit_rules[i])
            &&& 0 <= i < tables.explicit_rules.len() && !ids.contains(tables.explicit_rules[i].id)
                ==> next.explicit_rules.contains(tables.explicit_rules[i])
        },
{
    let gone = |rule: RuleView| ids.contains(rule.id);
    kept_are_not_gone(tables.explicit_rules, gone);
    lists_lose_what_goes(tables.explicit_rules, gone);
    if rules_removed(tables, ids) is Ok {
        let rest = kept(tables.explicit_rules, gone);
        replaced_rules_are_in_force(tables, rest);
        if 0 <= i < rest.len() {
            assert(!gone(rest[i]));
        }
        if 0 <= i < tables.explicit_rules.len() && !ids.contains(tables.explicit_rules[i].id) {
            assert(!gone(tables.explicit_rules[i]));
        }
    }
}

/// Replaced rules with expressions are in force as they compile; the domain rules stay, and the
/// cached answers are forgotten.
pub proof fn replaced_expressions_are_in_force(tables: TablesView, configs: Seq<RegexRuleView>)
    requires
        regex_published(tables, configs) is Ok,
    ensures
        ({
            let (outcome, next) = regex_published(tables, configs)->Ok_0;
            &&& outcome == ReloadState::Published
            &&& compiled_regex(configs, ids_of(tables.base_rules + tables.blocklist_rules))
                == Ok::<Seq<RegexMeaning>, ErrorView>(next.regex_rules)
            &&& next.cache.len() == 0
            &&& next == (TablesView {
                regex_rules: next.regex_rules,
                cache: next.cache,
                generation: next.generation,
                ..tables
            })
        }),
        regex_replaced(tables, configs) matches Ok((outcome, next)) && (outcome
            == ReloadState::Unchanged ==> next == tables && published_rules(tables.regex_rules)
            == configs) && (outcome == ReloadState::Published ==> Ok::<
            (ReloadState, TablesView),
            ErrorView,
        >((outcome, next)) == regex_published(tables, configs)),
{
}

/// Rules with expressions that are removed by number are gone from what is compiled, and all
/// others are compiled again. A request that no rule answers to is refused.
pub proof fn removed_expressions_are_gone(tables: TablesView, ids: Seq<u32>, i: int)
    ensures
        ids.len() == 0 ==> regex_removed(tables, ids) is Err,
        ({
            let current = published_rules(tables.regex_rules);
            let rest = kept(current, |rule: RegexRuleView| ids.contains(rule.id));
            &&& (forall|k: int|
                0 <= k < current.len() ==> !ids.contains((#[trigger] current[k]).id))
                ==> regex_removed(tables, ids) is Err
            &&& regex_removed(tables, ids) is Ok ==> regex_removed(tables, ids) == regex_published(
                tables,
                rest,
            )
            &&& 0 <= i < rest.len() ==> !ids.contains(rest[i].id) && current.contains(rest[i])
            &&& 0 <= i < current.len() && !ids.contains(current[i].id) ==> rest.contains(current[i])
        }),
{
    let current = published_rules(tables.regex_rules);
    let gone = |rule: RegexRuleView| ids.contains(rule.id);
    kept_are_not_gone(current, gone);
    lists_lose_what_goes(current, gone);
    let rest = kept(current, gone);
    if 0 <= i < rest.len() {
        assert(!gone(rest[i]));
    }
    if 0 <= i < current.len() && !ids.contains(current[i].id) {
        assert(!gone(current[i]));
    }
}

} // verus!
