//! Changes of the filter lists, the country map, the limits and the switches while running.
//! What reading the files gave is handed in: a path that was not read counts as unreadable.
use vstd::prelude::*;
use vstd::string::*;

use crate::admission::{admission_error, replacement_fault, validate_admission};
use crate::blocklist::{list_error, load_blocklists_at, rules_at, source_views, without,
    BlocklistSource, SourceView};
use crate::config::{AdmissionConfig, AdmissionView, CountryPolicyConfig, CountryView,
    QueryRecordingRedaction};
use crate::country::{load_country_policy, loaded, CountryPolicy, CountryPolicyView, CountrySource};
use crate::items::same_items;
use crate::lists::{copy_texts, has_text, same_texts};
use crate::policy::{ErrorView, PolicyError, RuleView};
use crate::runtime::Policy;
use crate::state::{counted, country_view, lists_published, performed, Change, ReloadState, Tables,
    TablesView};
use crate::text::{texts, to_chars};
use crate::text_set::TextSet;

verus! {

fn refuse_source(reason: &str) -> (r: PolicyError)
    ensures
        r@ == list_error("<sources>"@, reason@),
{
    PolicyError::InvalidBlocklist { path: "<sources>".to_owned(), reason: reason.to_owned() }
}

// ---- lists of texts ------------------------------------------------------------------

/// The list with the texts that it lacks behind the others.
pub open spec fn with_texts(list: Seq<Seq<char>>, additions: Seq<Seq<char>>) -> Seq<Seq<char>>
    decreases additions.len(),
{
    if additions.len() == 0 {
        list
    } else {
        let before = with_texts(list, additions.drop_last());
        if before.contains(additions.last()) {
            before
        } else {
            before.push(additions.last())
        }
    }
}

/// The texts of the list that are not in the set, in order.
pub open spec fn outside(list: Seq<Seq<char>>, set: Set<Seq<char>>) -> Seq<Seq<char>>
    decreases list.len(),
{
    if list.len() == 0 {
        Seq::empty()
    } else {
        let rest = outside(list.drop_last(), set);
        if set.contains(list.last()) {
            rest
        } else {
            rest.push(list.last())
        }
    }
}

fn add_texts(list: &[String], additions: &[String]) -> (r: Vec<String>)
    ensures
        texts(r@) == with_texts(texts(list@), texts(additions@)),
{
    let ghost start = texts(list@);
    let ghost all = texts(additions@);
    let mut out = copy_texts(list);
    let mut i: usize = 0;
    assert(all.take(0) =~= Seq::<Seq<char>>::empty());
    while i < additions.len()
        invariant
            i <= additions.len(),
            start == texts(list@),
            all == texts(additions@),
            texts(out@) == with_texts(start, all.take(i as int)),
        decreases additions.len() - i,
    {
        let ghost next = all.take(i as int + 1);
        assert(next.drop_last() =~= all.take(i as int));
        assert(next.last() == additions[i as int]@);
        if !has_text(&out, additions[i].as_str()) {
            let ghost before = texts(out@);
            out.push(additions[i].clone());
            assert(texts(out@) =~= before.push(additions@[i as int]@));
        }
        i = i + 1;
    }
    assert(all.take(i as int) =~= all);
    out
}

fn remove_texts(list: &[String], removals: &[String]) -> (r: Vec<String>)
    ensures
        texts(r@) == without(texts(list@), texts(removals@)),
{
    let ghost all = texts(list@);
    let mut out: Vec<String> = Vec::new();
    let mut i: usize = 0;
    assert(texts(out@) =~= Seq::<Seq<char>>::empty());
    while i < list.len()
        invariant
            i <= list.len(),
            all == texts(list@),
            texts(out@) == without(all.take(i as int), texts(removals@)),
        decreases list.len() - i,
    {
        let ghost next = all.take(i as int + 1);
        assert(next.drop_last() =~= all.take(i as int));
        assert(next.last() == list[i as int]@);
        if !has_text(removals, list[i].as_str()) {
            let ghost before = texts(out@);
            out.push(list[i].clone());
            assert(texts(out@) =~= before.push(list@[i as int]@));
        }
        i = i + 1;
    }
    assert(all.take(i as int) =~= all);
    out
}

fn outside_texts(list: &[String], set: &TextSet) -> (r: Vec<String>)
    requires
        set.wf(),
    ensures
        texts(r@) == outside(texts(list@), set@),
{
    let ghost all = texts(list@);
    let mut out: Vec<String> = Vec::new();
    let mut i: usize = 0;
    assert(texts(out@) =~= Seq::<Seq<char>>::empty());
    while i < list.len()
        invariant
            i <= list.len(),
            set.wf(),
            all == texts(list@),
            texts(out@) == outside(all.take(i as int), set@),
        decreases list.len() - i,
    {
        let ghost next = all.take(i as int + 1);
        assert(next.drop_last() =~= all.take(i as int));
        assert(next.last() == list[i as int]@);
        let chars = to_chars(list[i].as_str());
        if !set.contains(&chars) {
            let ghost before = texts(out@);
            out.push(list[i].clone());
            assert(texts(out@) =~= before.push(list@[i as int]@));
        }
        i = i + 1;
    }
    assert(all.take(i as int) =~= all);
    out
}

// ---- filter lists --------------------------------------------------------------------

/// Publishing the rules of the lists at the paths. Where the sources themselves did not change,
/// rules that are in force already are nothing to publish.
pub open spec fn active_lists_published(
    tables: TablesView,
    files: Seq<SourceView>,
    paths: Seq<Seq<char>>,
    sources_changed: bool,
) -> Change {
    match rules_at(files, paths) {
        Err(error) => Err(error),
        Ok(rules) => if !sources_changed && tables.blocklist_rules == rules {
            Ok((ReloadState::Unchanged, tables))
        } else {
            lists_published(tables, rules)
        },
    }
}

/// A change of the lists after which other sources are configured.
pub open spec fn with_sources_of(
    change: Change,
    paths: Seq<Seq<char>>,
    disabled: Set<Seq<char>>,
) -> Change {
    match change {
        Err(error) => Err(error),
        Ok((outcome, next)) => Ok(
            (outcome, TablesView { blocklist_paths: paths, disabled_paths: disabled, ..next }),
        ),
    }
}

/// Reading the lists again.
pub open spec fn lists_reloaded(tables: TablesView, files: Seq<SourceView>) -> Change {
    active_lists_published(
        tables,
        files,
        outside(tables.blocklist_paths, tables.disabled_paths),
        false,
    )
}

/// Replacing the sources, all of them enabled.
pub open spec fn sources_replaced(
    tables: TablesView,
    files: Seq<SourceView>,
    paths: Seq<Seq<char>>,
) -> Change {
    let changed = tables.blocklist_paths != paths || tables.disabled_paths != Set::<
        Seq<char>,
    >::empty();
    with_sources_of(
        active_lists_published(tables, files, paths, changed),
        paths,
        Set::empty(),
    )
}

/// Adding sources behind the others.
pub open spec fn sources_added(
    tables: TablesView,
    files: Seq<SourceView>,
    additions: Seq<Seq<char>>,
) -> Change {
    let paths = with_texts(tables.blocklist_paths, additions);
    if additions.len() == 0 {
        Err(list_error("<sources>"@, "at least one source path is required"@))
    } else {
        with_sources_of(
            active_lists_published(tables, files, outside(paths, tables.disabled_paths), true),
            paths,
            tables.disabled_paths,
        )
    }
}

/// Removing sources.
pub open spec fn sources_removed(
    tables: TablesView,
    files: Seq<SourceView>,
    removals: Seq<Seq<char>>,
) -> Change {
    let paths = without(tables.blocklist_paths, removals);
    if removals.len() == 0 {
        Err(list_error("<sources>"@, "at least one source path is required"@))
    } else if paths.len() == tables.blocklist_paths.len() {
        Err(list_error("<sources>"@, "no requested source path exists"@))
    } else {
        with_sources_of(
            active_lists_published(tables, files, outside(paths, tables.disabled_paths), true),
            paths,
            tables.disabled_paths.filter(|path: Seq<char>| paths.contains(path)),
        )
    }
}

/// The disabled sources after some were switched.
pub open spec fn switched(disabled: Set<Seq<char>>, paths: Seq<Seq<char>>, enabled: bool) -> Set<
    Seq<char>,
> {
    if enabled {
        disabled.difference(paths.to_set())
    } else {
        disabled.union(paths.to_set())
    }
}

/// Switching configured sources on or off.
pub open spec fn sources_switched(
    tables: TablesView,
    files: Seq<SourceView>,
    paths: Seq<Seq<char>>,
    enabled: bool,
) -> Change {
    let disabled = switched(tables.disabled_paths, paths, enabled);
    if paths.len() == 0 {
        Err(list_error("<sources>"@, "at least one source path is required"@))
    } else if exists|i: int|
        0 <= i < paths.len() && !tables.blocklist_paths.contains(#[trigger] paths[i]) {
        Err(list_error("<sources>"@, "all source paths must already be configured"@))
    } else if disabled == tables.disabled_paths {
        Ok((ReloadState::Unchanged, tables))
    } else {
        with_sources_of(
            active_lists_published(tables, files, outside(tables.blocklist_paths, disabled), true),
            tables.blocklist_paths,
            disabled,
        )
    }
}

impl Tables {
    /// Makes rules of the lists at the paths, and publishes them.
    pub fn publish_active_lists(
        &mut self,
        files: &[BlocklistSource],
        paths: &[String],
        sources_changed: bool,
    ) -> (r: Result<ReloadState, PolicyError>)
        requires
            old(self).wf(),
        ensures
            performed(
                active_lists_published(
                    old(self)@,
                    source_views(files@),
                    texts(paths@),
                    sources_changed,
                ),
                old(self)@,
                final(self)@,
                r,
            ),
            final(self).wf(),
    {
        let rules = match load_blocklists_at(files, paths) {
            Ok(rules) => rules,
            Err(error) => {
                return Err(error);
            },
        };
        if !sources_changed && same_items(&self.blocklist_rules, &rules) {
            return Ok(ReloadState::Unchanged);
        }
        self.publish_lists(rules)
    }

    /// Publishes the lists of other sources, which are then the configured ones.
    fn publish_sources(
        &mut self,
        files: &[BlocklistSource],
        active: &[String],
        sources_changed: bool,
        paths: Vec<String>,
        disabled: TextSet,
    ) -> (r: Result<ReloadState, PolicyError>)
        requires
            old(self).wf(),
            disabled.wf(),
        ensures
            performed(
                with_sources_of(
                    active_lists_published(
                        old(self)@,
                        source_views(files@),
                        texts(active@),
                        sources_changed,
                    ),
                    texts(paths@),
                    disabled@,
                ),
                old(self)@,
                final(self)@,
                r,
            ),
            final(self).wf(),
    {
        match self.publish_active_lists(files, active, sources_changed) {
            Ok(outcome) => {
                self.blocklist_paths = paths;
                self.disabled_blocklist_paths = disabled;
                Ok(outcome)
            },
            Err(error) => Err(error),
        }
    }
}

fn any_missing(paths: &[String], known: &[String]) -> (r: bool)
    ensures
        r == exists|i: int|
            0 <= i < texts(paths@).len() && !texts(known@).contains(#[trigger] texts(paths@)[i]),
{
    let ghost all = texts(paths@);
    let mut i: usize = 0;
    while i < paths.len()
        invariant
            i <= paths.len(),
            all == texts(paths@),
            forall|k: int| 0 <= k < i ==> texts(known@).contains(#[trigger] all[k]),
        decreases paths.len() - i,
    {
        assert(all[i as int] == paths[i as int]@);
        if !has_text(known, paths[i].as_str()) {
            return true;
        }
        i = i + 1;
    }
    false
}

fn switch_paths(disabled: &TextSet, paths: &[String], enabled: bool) -> (r: TextSet)
    requires
        disabled.wf(),
    ensures
        r.wf(),
        r@ == switched(disabled@, texts(paths@), enabled),
{
    let ghost all = texts(paths@);
    let mut r = disabled.copied();
    let mut i: usize = 0;
    assert(r@ =~= switched(disabled@, all.take(0), enabled));
    while i < paths.len()
        invariant
            i <= paths.len(),
            all == texts(paths@),
            r.wf(),
            r@ == switched(disabled@, all.take(i as int), enabled),
        decreases paths.len() - i,
    {
        let chars = to_chars(paths[i].as_str());
        assert(all[i as int] == chars@);
        proof {
            crate::text_set::pushed_to_set(all, i as int);
        }
        if enabled {
            r.remove(&chars);
        } else {
            r.insert(&chars);
        }
        i = i + 1;
        assert(r@ =~= switched(disabled@, all.take(i as int), enabled));
    }
    assert(all.take(i as int) =~= all);
    r
}

fn keep_configured(disabled: &TextSet, paths: &[String]) -> (r: TextSet)
    requires
        disabled.wf(),
    ensures
        r.wf(),
        r@ == disabled@.filter(|path: Seq<char>| texts(paths@).contains(path)),
{
    let listed = disabled.to_list();
    let ghost all = texts(listed@);
    let mut r = TextSet::new();
    let mut i: usize = 0;
    assert(r@ =~= all.take(0).to_set().filter(|path: Seq<char>| texts(paths@).contains(path)));
    while i < listed.len()
        invariant
            i <= listed.len(),
            all == texts(listed@),
            r.wf(),
            r@ == all.take(i as int).to_set().filter(
                |path: Seq<char>| texts(paths@).contains(path),
            ),
        decreases listed.len() - i,
    {
        let chars = to_chars(listed[i].as_str());
        assert(all[i as int] == chars@);
        proof {
            crate::text_set::pushed_to_set(all, i as int);
        }
        if has_text(paths, listed[i].as_str()) {
            r.insert(&chars);
        }
        i = i + 1;
        assert(r@ =~= all.take(i as int).to_set().filter(
            |path: Seq<char>| texts(paths@).contains(path),
        ));
    }
    assert(all.take(i as int) =~= all);
    r
}

impl Policy {
    /// Reads the filter lists again.
    pub fn reload_blocklists(&mut self, files: &[BlocklistSource]) -> (r: Result<
        ReloadState,
        PolicyError,
    >)
        requires
            old(self).wf(),
        ensures
            performed(
                lists_reloaded(old(self).tables@, source_views(files@)),
                old(self).tables@,
                final(self).tables@,
                r,
            ),
            final(self).only_tables(old(self)),
            final(self).wf(),
    {
        self.reload_blocklists_if_changed(files)
    }

    /// Reads the filter lists again, and publishes their rules where they changed.
    pub fn reload_blocklists_if_changed(&mut self, files: &[BlocklistSource]) -> (r: Result<
        ReloadState,
        PolicyError,
    >)
        requires
            old(self).wf(),
        ensures
            performed(
                lists_reloaded(old(self).tables@, source_views(files@)),
                old(self).tables@,
                final(self).tables@,
                r,
            ),
            final(self).only_tables(old(self)),
            final(self).wf(),
    {
        let active = outside_texts(
            &self.tables.blocklist_paths,
            &self.tables.disabled_blocklist_paths,
        );
        self.tables.publish_active_lists(files, &active, false)
    }

    /// Replaces the sources of the filter lists.
    pub fn replace_blocklist_sources(&mut self, files: &[BlocklistSource], paths: &[String]) -> (r:
        Result<ReloadState, PolicyError>)
        requires
            old(self).wf(),
        ensures
            performed(
                sources_replaced(old(self).tables@, source_views(files@), texts(paths@)),
                old(self).tables@,
                final(self).tables@,
                r,
            ),
            final(self).only_tables(old(self)),
            final(self).wf(),
    {
        let none = TextSet::new();
        let changed = !same_texts(&self.tables.blocklist_paths, paths)
            || !self.tables.disabled_blocklist_paths.same_as(&none);
        self.tables.publish_sources(files, paths, changed, copy_texts(paths), none)
    }

    /// Adds sources behind those there are.
    pub fn add_blocklist_sources(&mut self, files: &[BlocklistSource], additions: &[String]) -> (r:
        Result<ReloadState, PolicyError>)
        requires
            old(self).wf(),
        ensures
            performed(
                sources_added(old(self).tables@, source_views(files@), texts(additions@)),
                old(self).tables@,
                final(self).tables@,
                r,
            ),
            final(self).only_tables(old(self)),
            final(self).wf(),
    {
        if additions.len() == 0 {
            return Err(refuse_source("at least one source path is required"));
        }
        let paths = add_texts(&self.tables.blocklist_paths, additions);
        let active = outside_texts(&paths, &self.tables.disabled_blocklist_paths);
        let disabled = self.tables.disabled_blocklist_paths.copied();
        self.tables.publish_sources(files, &active, true, paths, disabled)
    }

    /// Removes sources.
    pub fn remove_blocklist_sources(&mut self, files: &[BlocklistSource], removals: &[String]) -> (r:
        Result<ReloadState, PolicyError>)
        requires
            old(self).wf(),
        ensures
            performed(
                sources_removed(old(self).tables@, source_views(files@), texts(removals@)),
                old(self).tables@,
                final(self).tables@,
                r,
            ),
            final(self).only_tables(old(self)),
            final(self).wf(),
    {
        if removals.len() == 0 {
            return Err(refuse_source("at least one source path is required"));
        }
        let paths = remove_texts(&self.tables.blocklist_paths, removals);
        assert(texts(paths@).len() == paths@.len());
        if paths.len() == self.tables.blocklist_paths.len() {
            return Err(refuse_source("no requested source path exists"));
        }
        let active = outside_texts(&paths, &self.tables.disabled_blocklist_paths);
        let disabled = keep_configured(&self.tables.disabled_blocklist_paths, &paths);
        self.tables.publish_sources(files, &active, true, paths, disabled)
    }

    /// Switches configured sources off.
    pub fn disable_blocklist_sources(&mut self, files: &[BlocklistSource], paths: &[String]) -> (r:
        Result<ReloadState, PolicyError>)
        requires
            old(self).wf(),
        ensures
            performed(
                sources_switched(old(self).tables@, source_views(files@), texts(paths@), false),
                old(self).tables@,
                final(self).tables@,
                r,
            ),
            final(self).only_tables(old(self)),
            final(self).wf(),
    {
        self.set_blocklist_sources_enabled(files, paths, false)
    }

    /// Switches configured sources on again.
    pub fn enable_blocklist_sources(&mut self, files: &[BlocklistSource], paths: &[String]) -> (r:
        Result<ReloadState, PolicyError>)
        requires
            old(self).wf(),
        ensures
            performed(
                sources_switched(old(self).tables@, source_views(files@), texts(paths@), true),
                old(self).tables@,
                final(self).tables@,
                r,
            ),
            final(self).only_tables(old(self)),
            final(self).wf(),
    {
        self.set_blocklist_sources_enabled(files, paths, true)
    }

    fn set_blocklist_sources_enabled(
        &mut self,
        files: &[BlocklistSource],
        paths: &[String],
        enabled: bool,
    ) -> (r: Result<ReloadState, PolicyError>)
        requires
            old(self).wf(),
        ensures
            performed(
                sources_switched(old(self).tables@, source_views(files@), texts(paths@), enabled),
                old(self).tables@,
                final(self).tables@,
                r,
            ),
            final(self).only_tables(old(self)),
            final(self).wf(),
    {
        if paths.len() == 0 {
            return Err(refuse_source("at least one source path is required"));
        }
        if any_missing(paths, &self.tables.blocklist_paths) {
            return Err(refuse_source("all source paths must already be configured"));
        }
        let disabled = switch_paths(&self.tables.disabled_blocklist_paths, paths, enabled);
        if disabled.same_as(&self.tables.disabled_blocklist_paths) {
            return Ok(ReloadState::Unchanged);
        }
        let configured = copy_texts(&self.tables.blocklist_paths);
        let active = outside_texts(&configured, &disabled);
        self.tables.publish_sources(files, &active, true, configured, disabled)
    }
}

// ---- the country map -----------------------------------------------------------------

/// Reading the country map again.
pub open spec fn country_reloaded(tables: TablesView, source: CountrySource) -> Change {
    match loaded(tables.country_config, source) {
        Err(error) => Err(error),
        Ok(country) => if tables.country == country {
            Ok((ReloadState::Unchanged, tables))
        } else {
            Ok((ReloadState::Published, counted(TablesView { country, ..tables })))
        },
    }
}

/// Replacing the country rules and their map.
pub open spec fn country_replaced(tables: TablesView, config: CountryView, source: CountrySource) -> Change {
    match loaded(config, source) {
        Err(error) => Err(error),
        Ok(country) => if tables.country == country && tables.country_config == config {
            Ok((ReloadState::Unchanged, tables))
        } else {
            Ok(
                (
                    ReloadState::Published,
                    counted(TablesView { country, country_config: config, ..tables }),
                ),
            )
        },
    }
}

/// Whether two loaded maps have the same value.
pub fn same_country(a: &Option<CountryPolicy>, b: &Option<CountryPolicy>) -> (r: bool)
    requires
        *a is Some ==> a->0.wf(),
        *b is Some ==> b->0.wf(),
    ensures
        r == (country_view(*a) == country_view(*b)),
{
    match (a, b) {
        (Some(x), Some(y)) => x.same_as(y),
        (None, None) => true,
        _ => false,
    }
}

impl Policy {
    /// Reads the country map again.
    pub fn reload_country_policy(&mut self, source: &CountrySource) -> (r: Result<
        ReloadState,
        PolicyError,
    >)
        requires
            old(self).wf(),
        ensures
            performed(
                country_reloaded(old(self).tables@, *source),
                old(self).tables@,
                final(self).tables@,
                r,
            ),
            final(self).only_tables(old(self)),
            final(self).wf(),
    {
        self.reload_country_policy_if_changed(source)
    }

    /// Reads the country map again, and publishes it where it changed.
    pub fn reload_country_policy_if_changed(&mut self, source: &CountrySource) -> (r: Result<
        ReloadState,
        PolicyError,
    >)
        requires
            old(self).wf(),
        ensures
            performed(
                country_reloaded(old(self).tables@, *source),
                old(self).tables@,
                final(self).tables@,
                r,
            ),
            final(self).only_tables(old(self)),
            final(self).wf(),
    {
        let next = match load_country_policy(&self.tables.country_policy_config, source) {
            Ok(next) => next,
            Err(error) => {
                return Err(error);
            },
        };
        if same_country(&self.tables.country_policy, &next) {
            return Ok(ReloadState::Unchanged);
        }
        self.tables.country_policy = next;
        self.tables.count();
        Ok(ReloadState::Published)
    }

    /// Replaces the country rules and their map.
    pub fn replace_country_policy(&mut self, config: &CountryPolicyConfig, source: &CountrySource) -> (r:
        Result<ReloadState, PolicyError>)
        requires
            old(self).wf(),
        ensures
            performed(
                country_replaced(old(self).tables@, config@, *source),
                old(self).tables@,
                final(self).tables@,
                r,
            ),
            final(self).only_tables(old(self)),
            final(self).wf(),
    {
        let next = match load_country_policy(config, source) {
            Ok(next) => next,
            Err(error) => {
                return Err(error);
            },
        };
        if same_country(&self.tables.country_policy, &next)
            && self.tables.country_policy_config.same_as(config) {
            return Ok(ReloadState::Unchanged);
        }
        self.tables.country_policy = next;
        self.tables.country_policy_config = config.copied();
        self.tables.count();
        Ok(ReloadState::Published)
    }
}

// ---- limits and switches -------------------------------------------------------------

/// Replacing the limits. The number of requests in flight is the one of the start.
pub open spec fn limits_replaced(tables: TablesView, limits: AdmissionView, inflight: usize) -> Change {
    match replacement_fault(limits, inflight) {
        Some(reason) => Err(admission_error(reason)),
        None => if tables.admission == limits {
            Ok((ReloadState::Unchanged, tables))
        } else {
            Ok((ReloadState::Published, counted(TablesView { admission: limits, ..tables })))
        },
    }
}

/// The limits with another denylist.
pub open spec fn with_deny_list(limits: AdmissionView, list: Seq<Seq<char>>) -> AdmissionView {
    AdmissionView { deny_client_cidrs: list, ..limits }
}

impl Policy {
    /// The limits in force.
    pub fn admission_config(&self) -> (r: AdmissionConfig)
        ensures
            r@ == self.tables@.admission,
    {
        self.tables.admission.copied()
    }

    /// Replaces the limits.
    pub fn reload_admission(&mut self, admission: &AdmissionConfig) -> (r: Result<
        ReloadState,
        PolicyError,
    >)
        requires
            old(self).wf(),
        ensures
            performed(
                limits_replaced(
                    old(self).tables@,
                    admission@,
                    old(self).config.admission.max_inflight_requests,
                ),
                old(self).tables@,
                final(self).tables@,
                r,
            ),
            final(self).only_tables(old(self)),
            final(self).wf(),
    {
        match validate_admission(admission, self.config.admission.max_inflight_requests) {
            Ok(()) => {},
            Err(error) => {
                return Err(error);
            },
        }
        if self.tables.admission.same_as(admission) {
            return Ok(ReloadState::Unchanged);
        }
        self.tables.admission = admission.copied();
        self.tables.count();
        Ok(ReloadState::Published)
    }

    /// Adds networks to the denylist.
    pub fn add_deny_client_cidrs(&mut self, additions: &[String]) -> (r: Result<
        ReloadState,
        PolicyError,
    >)
        requires
            old(self).wf(),
        ensures
            performed(
                limits_replaced(
                    old(self).tables@,
                    with_deny_list(
                        old(self).tables@.admission,
                        with_texts(
                            old(self).tables@.admission.deny_client_cidrs,
                            texts(additions@),
                        ),
                    ),
                    old(self).config.admission.max_inflight_requests,
                ),
                old(self).tables@,
                final(self).tables@,
                r,
            ),
            final(self).only_tables(old(self)),
            final(self).wf(),
    {
        let mut admission = self.admission_config();
        admission.deny_client_cidrs = add_texts(&admission.deny_client_cidrs, additions);
        self.reload_admission(&admission)
    }

    /// Removes networks from the denylist; an entry that is not there does not matter.
    pub fn remove_deny_client_cidrs(&mut self, removals: &[String]) -> (r: Result<
        ReloadState,
        PolicyError,
    >)
        requires
            old(self).wf(),
        ensures
            performed(
                limits_replaced(
                    old(self).tables@,
                    with_deny_list(
                        old(self).tables@.admission,
                        without(
                            old(self).tables@.admission.deny_client_cidrs,
                            texts(removals@),
                        ),
                    ),
                    old(self).config.admission.max_inflight_requests,
                ),
                old(self).tables@,
                final(self).tables@,
                r,
            ),
            final(self).only_tables(old(self)),
            final(self).wf(),
    {
        let mut admission = self.admission_config();
        admission.deny_client_cidrs = remove_texts(&admission.deny_client_cidrs, removals);
        self.reload_admission(&admission)
    }

    /// Replaces the denylist alone.
    pub fn replace_deny_client_cidrs(&mut self, cidrs: &[String]) -> (r: Result<
        ReloadState,
        PolicyError,
    >)
        requires
            old(self).wf(),
        ensures
            performed(
                limits_replaced(
                    old(self).tables@,
                    with_deny_list(old(self).tables@.admission, texts(cidrs@)),
                    old(self).config.admission.max_inflight_requests,
                ),
                old(self).tables@,
                final(self).tables@,
                r,
            ),
            final(self).only_tables(old(self)),
            final(self).wf(),
    {
        let mut admission = self.admission_config();
        admission.deny_client_cidrs = copy_texts(cidrs);
        self.reload_admission(&admission)
    }

    /// The denylist in force.
    pub fn deny_client_cidrs(&self) -> (r: Vec<String>)
        ensures
            texts(r@) == self.tables@.admission.deny_client_cidrs,
    {
        copy_texts(&self.tables.admission.deny_client_cidrs)
    }

    /// Switches the filtering on or off; the rules stay for later.
    pub fn set_filtering_enabled(&mut self, enabled: bool) -> (r: ReloadState)
        requires
            old(self).wf(),
        ensures
            if old(self).tables@.filtering_enabled == enabled {
                r == ReloadState::Unchanged && final(self).tables@ == old(self).tables@
            } else {
                r == ReloadState::Published && final(self).tables@ == counted(
                    TablesView { filtering_enabled: enabled, ..old(self).tables@ },
                )
            },
            final(self).only_tables(old(self)),
            final(self).wf(),
    {
        if self.tables.filtering_enabled == enabled {
            return ReloadState::Unchanged;
        }
        self.tables.filtering_enabled = enabled;
        self.tables.count();
        ReloadState::Published
    }

    /// Changes what recorded decisions tell.
    pub fn set_query_recording_redaction(&mut self, redaction: QueryRecordingRedaction) -> (r:
        ReloadState)
        requires
            old(self).wf(),
        ensures
            if old(self).tables@.redaction == redaction {
                r == ReloadState::Unchanged && final(self).tables@ == old(self).tables@
            } else {
                r == ReloadState::Published && final(self).tables@ == counted(
                    TablesView { redaction, ..old(self).tables@ },
                )
            },
            final(self).only_tables(old(self)),
            final(self).wf(),
    {
        if self.tables.query_recording_redaction == redaction {
            return ReloadState::Unchanged;
        }
        self.tables.query_recording_redaction = redaction;
        self.tables.count();
        ReloadState::Published
    }
}

// ---- laws ----------------------------------------------------------------------------

/// Taking entries off the denylist that are not on it finds nothing to do.
pub proof fn removing_unknown_entries_changes_nothing(
    tables: TablesView,
    removals: Seq<Seq<char>>,
    inflight: usize,
)
    requires
        forall|i: int|
            0 <= i < tables.admission.deny_client_cidrs.len() ==> !removals.contains(
                #[trigger] tables.admission.deny_client_cidrs[i],
            ),
        replacement_fault(tables.admission, inflight) is None,
    ensures
        limits_replaced(
            tables,
            with_deny_list(
                tables.admission,
                without(tables.admission.deny_client_cidrs, removals),
            ),
            inflight,
        ) == Ok::<(ReloadState, TablesView), ErrorView>((ReloadState::Unchanged, tables)),
{
    nothing_is_without(tables.admission.deny_client_cidrs, removals);
    assert(with_deny_list(tables.admission, tables.admission.deny_client_cidrs)
        == tables.admission);
}

proof fn nothing_is_without(list: Seq<Seq<char>>, removals: Seq<Seq<char>>)
    requires
        forall|i: int| 0 <= i < list.len() ==> !removals.contains(#[trigger] list[i]),
    ensures
        without(list, removals) == list,
    decreases list.len(),
{
    if list.len() > 0 {
        let front = list.drop_last();
        assert forall|i: int| 0 <= i < front.len() implies !removals.contains(
            #[trigger] front[i],
        ) by {
            assert(front[i] == list[i]);
        }
        nothing_is_without(front, removals);
        assert(!removals.contains(list[list.len() - 1]));
        assert(without(list, removals) =~= list);
    }
}

/// Switching sources off and on again restores which sources count.
pub proof fn switching_off_and_on_restores(disabled: Set<Seq<char>>, paths: Seq<Seq<char>>)
    requires
        disabled.disjoint(paths.to_set()),
    ensures
        switched(switched(disabled, paths, false), paths, true) == disabled,
{
    assert(switched(switched(disabled, paths, false), paths, true) =~= disabled);
}

/// A list that texts are added to keeps its own in their places, holds each of them then, and
/// nothing else; what it holds already is not repeated.
pub proof fn added_texts_are_listed(list: Seq<Seq<char>>, additions: Seq<Seq<char>>, t: Seq<char>)
    ensures
        with_texts(list, additions).contains(t) <==> list.contains(t) || additions.contains(t),
        with_texts(list, additions).len() >= list.len(),
        with_texts(list, additions).take(list.len() as int) == list,
        list.no_duplicates() ==> with_texts(list, additions).no_duplicates(),
    decreases additions.len(),
{
    if additions.len() == 0 {
        assert(list.take(list.len() as int) =~= list);
    } else {
        let front = additions.drop_last();
        let last = additions.last();
        let before = with_texts(list, front);
        let after = with_texts(list, additions);
        added_texts_are_listed(list, front, t);
        added_texts_are_listed(list, front, last);
        assert(after.take(list.len() as int) =~= before.take(list.len() as int));
        assert(additions.contains(t) <==> front.contains(t) || t == last) by {
            if front.contains(t) {
                let k = choose|k: int| 0 <= k < front.len() && front[k] == t;
                assert(additions[k] == t);
            }
            if t == last {
                assert(additions[additions.len() - 1] == t);
            }
            if additions.contains(t) && t != last {
                let k = choose|k: int| 0 <= k < additions.len() && additions[k] == t;
                assert(front[k] == t);
            }
        }
        if !before.contains(last) {
            assert(after.contains(t) <==> before.contains(t) || t == last) by {
                if before.contains(t) {
                    let k = choose|k: int| 0 <= k < before.len() && before[k] == t;
                    assert(after[k] == t);
                }
                if t == last {
                    assert(after[before.len() as int] == t);
                }
            }
        }
    }
}

/// A list that texts are taken off holds the others then and none of them, in their order: what
/// becomes of two lists one behind the other is what becomes of each.
pub proof fn removed_texts_are_not_listed(
    list: Seq<Seq<char>>,
    more: Seq<Seq<char>>,
    removals: Seq<Seq<char>>,
    t: Seq<char>,
)
    ensures
        without(list, removals).contains(t) <==> list.contains(t) && !removals.contains(t),
        without(list + more, removals) == without(list, removals) + without(more, removals),
        !removals.contains(t) ==> without(seq![t], removals) == seq![t],
    decreases list.len() + more.len(),
{
    assert(without(seq![t].drop_last(), removals) =~= Seq::<Seq<char>>::empty());
    assert(seq![t].last() == t);
    if more.len() > 0 {
        removed_texts_are_not_listed(list, more.drop_last(), removals, t);
        assert((list + more).drop_last() =~= list + more.drop_last());
        assert(without(list + more, removals) =~= without(list, removals) + without(
            more,
            removals,
        ));
    } else {
        assert(list + more =~= list);
        assert(without(list, removals) + without(more, removals) =~= without(list, removals));
        if list.len() > 0 {
            let front = list.drop_last();
            let before = without(front, removals);
            let after = without(list, removals);
            removed_texts_are_not_listed(front, more, removals, t);
            if before.contains(t) {
                let k = choose|k: int| 0 <= k < before.len() && before[k] == t;
                assert(after[k] == t);
                let j = choose|j: int| 0 <= j < front.len() && front[j] == t;
                assert(list[j] == t);
            }
            if t == list.last() {
                assert(list[list.len() - 1] == t);
                if !removals.contains(t) {
                    assert(after[before.len() as int] == t);
                }
            }
            if list.contains(t) && t != list.last() {
                let j = choose|j: int| 0 <= j < list.len() && list[j] == t;
                assert(front[j] == t);
            }
        }
    }
}

/// The enabled sources are those that are not disabled, in their order.
pub proof fn enabled_sources_are_the_others(
    list: Seq<Seq<char>>,
    more: Seq<Seq<char>>,
    disabled: Set<Seq<char>>,
    t: Seq<char>,
)
    ensures
        outside(list, disabled).contains(t) <==> list.contains(t) && !disabled.contains(t),
        outside(list + more, disabled) == outside(list, disabled) + outside(more, disabled),
        !disabled.contains(t) ==> outside(seq![t], disabled) == seq![t],
    decreases list.len() + more.len(),
{
    assert(outside(seq![t].drop_last(), disabled) =~= Seq::<Seq<char>>::empty());
    assert(seq![t].last() == t);
    if more.len() > 0 {
        enabled_sources_are_the_others(list, more.drop_last(), disabled, t);
        assert((list + more).drop_last() =~= list + more.drop_last());
        assert(outside(list + more, disabled) =~= outside(list, disabled) + outside(more, disabled));
    } else {
        assert(list + more =~= list);
        assert(outside(list, disabled) + outside(more, disabled) =~= outside(list, disabled));
        if list.len() > 0 {
            let front = list.drop_last();
            let before = outside(front, disabled);
            let after = outside(list, disabled);
            enabled_sources_are_the_others(front, more, disabled, t);
            if before.contains(t) {
                let k = choose|k: int| 0 <= k < before.len() && before[k] == t;
                assert(after[k] == t);
                let j = choose|j: int| 0 <= j < front.len() && front[j] == t;
                assert(list[j] == t);
            }
            if t == list.last() {
                assert(list[list.len() - 1] == t);
                if !disabled.contains(t) {
                    assert(after[before.len() as int] == t);
                }
            }
            if list.contains(t) && t != list.last() {
                let j = choose|j: int| 0 <= j < list.len() && list[j] == t;
                assert(front[j] == t);
            }
        }
    }
}

proof fn outside_goes_by_the_listed(list: Seq<Seq<char>>, a: Set<Seq<char>>, b: Set<Seq<char>>)
    requires
        forall|i: int| 0 <= i < list.len() ==> a.contains(#[trigger] list[i]) == b.contains(list[i]),
    ensures
        outside(list, a) == outside(list, b),
    decreases list.len(),
{
    if list.len() > 0 {
        let front = list.drop_last();
        assert forall|i: int| 0 <= i < front.len() implies a.contains(#[trigger] front[i])
            == b.contains(front[i]) by {
            assert(front[i] == list[i]);
        }
        outside_goes_by_the_listed(front, a, b);
        assert(a.contains(list[list.len() - 1]) == b.contains(list[list.len() - 1]));
    }
}

proof fn nothing_is_outside_nothing(list: Seq<Seq<char>>)
    ensures
        outside(list, Set::empty()) == list,
    decreases list.len(),
{
    if list.len() > 0 {
        nothing_is_outside_nothing(list.drop_last());
        assert(outside(list, Set::empty()) =~= list);
    }
}

/// The rules of the filter lists in force are those of the sources that are configured and enabled.
pub open spec fn lists_are_read(tables: TablesView, files: Seq<SourceView>) -> bool {
    rules_at(files, outside(tables.blocklist_paths, tables.disabled_paths)) == Ok::<
        Seq<RuleView>,
        ErrorView,
    >(tables.blocklist_rules)
}

/// After the lists were read again the rules in force are those of the enabled sources as they
/// were read, and the sources are the same. After the sources were replaced they are the given
/// ones, all enabled.
pub proof fn rules_come_from_the_enabled_sources(
    tables: TablesView,
    files: Seq<SourceView>,
    paths: Seq<Seq<char>>,
)
    ensures
        lists_reloaded(tables, files) matches Ok((_, next)) ==> lists_are_read(next, files)
            && next.blocklist_paths == tables.blocklist_paths && next.disabled_paths
            == tables.disabled_paths && next.base_rules == tables.base_rules,
        sources_replaced(tables, files, paths) matches Ok((_, next)) ==> lists_are_read(next, files)
            && next.blocklist_paths == paths && next.disabled_paths == Set::<Seq<char>>::empty()
            && next.base_rules == tables.base_rules,
{
    nothing_is_outside_nothing(paths);
}

/// After sources were added the rules in force are those of all enabled ones, the new ones behind
/// the others. A request without a source is refused.
pub proof fn added_sources_are_read(
    tables: TablesView,
    files: Seq<SourceView>,
    additions: Seq<Seq<char>>,
    t: Seq<char>,
)
    ensures
        additions.len() == 0 ==> sources_added(tables, files, additions) is Err,
        sources_added(tables, files, additions) matches Ok((_, next)) ==> {
            &&& lists_are_read(next, files)
            &&& next.blocklist_paths.contains(t) <==> tables.blocklist_paths.contains(t)
                || additions.contains(t)
            &&& next.disabled_paths == tables.disabled_paths
            &&& next.cache.len() == 0
        },
{
    added_texts_are_listed(tables.blocklist_paths, additions, t);
}

/// After sources were removed the rules in force are those of the enabled ones that are left. A
/// request that no source answers to is refused.
pub proof fn removed_sources_are_not_read(
    tables: TablesView,
    files: Seq<SourceView>,
    removals: Seq<Seq<char>>,
    t: Seq<char>,
)
    ensures
        removals.len() == 0 ==> sources_removed(tables, files, removals) is Err,
        (forall|i: int|
            0 <= i < tables.blocklist_paths.len() ==> !removals.contains(
                #[trigger] tables.blocklist_paths[i],
            )) ==> sources_removed(tables, files, removals) is Err,
        sources_removed(tables, files, removals) matches Ok((_, next)) ==> {
            &&& lists_are_read(next, files)
            &&& next.blocklist_paths.contains(t) <==> tables.blocklist_paths.contains(t)
                && !removals.contains(t)
            &&& next.disabled_paths.contains(t) <==> tables.disabled_paths.contains(t)
                && next.blocklist_paths.contains(t)
            &&& next.cache.len() == 0
        },
{
    let paths = without(tables.blocklist_paths, removals);
    if forall|i: int|
        0 <= i < tables.blocklist_paths.len() ==> !removals.contains(
            #[trigger] tables.blocklist_paths[i],
        ) {
        nothing_is_without(tables.blocklist_paths, removals);
    }
    removed_texts_are_not_listed(tables.blocklist_paths, Seq::empty(), removals, t);
    let left = tables.disabled_paths.filter(|path: Seq<char>| paths.contains(path));
    assert forall|i: int| 0 <= i < paths.len() implies tables.disabled_paths.contains(
        #[trigger] paths[i],
    ) == left.contains(paths[i]) by {
        assert(paths.contains(paths[i]));
    }
    outside_goes_by_the_listed(paths, tables.disabled_paths, left);
}

/// Sources that are switched off are not read then, and those that are switched on are; the others
/// stay as they were. All of them must be configured, and there must be one.
pub proof fn switched_sources_count_or_not(
    tables: TablesView,
    files: Seq<SourceView>,
    paths: Seq<Seq<char>>,
    enabled: bool,
    t: Seq<char>,
)
    ensures
        paths.len() == 0 ==> sources_switched(tables, files, paths, enabled) is Err,
        paths.contains(t) && !tables.blocklist_paths.contains(t) ==> sources_switched(
            tables,
            files,
            paths,
            enabled,
        ) is Err,
        sources_switched(tables, files, paths, enabled) matches Ok((outcome, next)) ==> {
            &&& paths.contains(t) ==> next.disabled_paths.contains(t) == !enabled
            &&& !paths.contains(t) ==> next.disabled_paths.contains(t)
                == tables.disabled_paths.contains(t)
            &&& next.blocklist_paths == tables.blocklist_paths
            &&& outcome == ReloadState::Published ==> lists_are_read(next, files)
                && next.cache.len() == 0
            &&& outcome == ReloadState::Unchanged ==> next == tables
        },
{
    if paths.contains(t) {
        let i = choose|i: int| 0 <= i < paths.len() && paths[i] == t;
        assert(paths[i] == t);
        assert(paths.to_set().contains(t));
    }
}

/// The country map in force is the one that was read, under the settings that it was read with;
/// the cached answers and the rules stay.
pub proof fn read_maps_are_in_force(tables: TablesView, config: CountryView, source: CountrySource)
    ensures
        country_reloaded(tables, source) matches Ok((_, next)) ==> loaded(
            tables.country_config,
            source,
        ) == Ok::<Option<CountryPolicyView>, ErrorView>(next.country) && next == (TablesView {
            country: next.country,
            generation: next.generation,
            ..tables
        }),
        country_replaced(tables, config, source) matches Ok((_, next)) ==> loaded(config, source)
            == Ok::<Option<CountryPolicyView>, ErrorView>(next.country) && next == (TablesView {
            country: next.country,
            country_config: config,
            generation: next.generation,
            ..tables
        }),
        loaded(config, source) is Err ==> country_replaced(tables, config, source) is Err,
{
}

/// Replaced limits are in force as they were given, and nothing else changes; a denylist is
/// replaced alone.
pub proof fn replaced_limits_are_in_force(
    tables: TablesView,
    limits: AdmissionView,
    list: Seq<Seq<char>>,
    inflight: usize,
)
    ensures
        limits_replaced(tables, limits, inflight) matches Ok((outcome, next)) ==> next == (TablesView {
            admission: limits,
            generation: next.generation,
            ..tables
        }) && (outcome == ReloadState::Unchanged <==> tables.admission == limits),
        limits_replaced(tables, limits, inflight) is Ok <==> replacement_fault(limits, inflight)
            is None,
        with_deny_list(limits, list).deny_client_cidrs == list,
        with_deny_list(with_deny_list(limits, list), limits.deny_client_cidrs) == limits,
{
}

} // verus!
