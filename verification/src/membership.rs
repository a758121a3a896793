//! Changes of the profiles, the client groups, the identities and the local answers while
//! running.
use vstd::prelude::*;
use vstd::string::*;

use crate::config::{group_views, identity_views, profile_views, rewrite_views, ClientGroupConfig,
    ClientIdentityConfig, GroupView, IdentityView, ProfileView, RewriteConfig, RewriteView,
    ServiceProfileConfig};
use crate::identities::{identities_fault, identity_error, validate_client_identities};
use crate::items::{append_items, copy_items, find_repeat, first_repeat, item_views, keep_items, kept,
    kept_are_not_gone, lists_lose_what_goes, loses, repeated_keys_are_found, same_items,
    the_last_update_counts, updates_are_in_the_list, upsert_items, upserted,
    upserts_leave_the_others};
use crate::lists::{has_text, has_u32};
use crate::names::{normal, normalize_chars};
use crate::policy::{ErrorView, PolicyError};
use crate::profiles::{compile_profiles, compiled_profiles, key_of, profile_error};
use crate::rewrites::{compile_rewrites, compiled_rewrites, rewrite_error, Answers};
use crate::runtime::Policy;
use crate::state::{compiled_from, counted, performed, renewed, rules_published, Change, ReloadState,
    Tables, TablesView};
use crate::text::{lower, same, texts, to_chars, to_lower, trim, trimmed, views};

verus! {

fn refuse_profile(name: &str, reason: &str) -> (r: PolicyError)
    ensures
        r@ == profile_error(name@, reason@),
{
    PolicyError::InvalidProfile { name: name.to_owned(), reason: reason.to_owned() }
}

fn refuse_identity(reason: &str) -> (r: PolicyError)
    ensures
        r@ == identity_error("<client-identities>"@, reason@),
{
    PolicyError::InvalidClientIdentityMap {
        name: "<client-identities>".to_owned(),
        reason: reason.to_owned(),
    }
}

fn refuse_rewrite(name: &str, reason: &str) -> (r: PolicyError)
    ensures
        r@ == rewrite_error(name@, reason@),
{
    PolicyError::InvalidRewrite { name: name.to_owned(), reason: reason.to_owned() }
}

// ---- profiles and groups -------------------------------------------------------------

/// Publishing the rules of other profiles and groups, which are then the ones in force.
pub open spec fn profiles_published(
    tables: TablesView,
    profiles: Seq<ProfileView>,
    groups: Seq<GroupView>,
) -> Change {
    match compiled_profiles(profiles, groups) {
        Err(error) => Err(error),
        Ok(generated) => match rules_published(
            tables,
            tables.explicit_rules + generated,
            tables.explicit_rules,
        ) {
            Err(error) => Err(error),
            Ok((outcome, next)) => Ok(
                (outcome, TablesView { profiles, client_groups: groups, ..next }),
            ),
        },
    }
}

/// Replacing the profiles and the groups.
pub open spec fn profiles_replaced(
    tables: TablesView,
    profiles: Seq<ProfileView>,
    groups: Seq<GroupView>,
) -> Change {
    if tables.profiles == profiles && tables.client_groups == groups {
        Ok((ReloadState::Unchanged, tables))
    } else {
        profiles_published(tables, profiles, groups)
    }
}

/// Replacing or adding groups by their names.
pub open spec fn groups_upserted(tables: TablesView, updates: Seq<GroupView>) -> Change {
    if updates.len() == 0 {
        Err(profile_error("<client-groups>"@, "at least one client group is required"@))
    } else {
        match first_repeat::<ClientGroupConfig>(updates) {
            Some(i) => Err(
                profile_error(updates[i].name, "group name must be unique within an upsert"@),
            ),
            None => {
                let groups = upserted::<ClientGroupConfig>(tables.client_groups, updates);
                match compiled_profiles(tables.profiles, groups) {
                    Err(error) => Err(error),
                    Ok(_) => if groups == tables.client_groups {
                        Ok((ReloadState::Unchanged, tables))
                    } else {
                        profiles_published(tables, tables.profiles, groups)
                    },
                }
            },
        }
    }
}

/// Replacing or adding profiles by their numbers.
pub open spec fn profiles_upserted(tables: TablesView, updates: Seq<ProfileView>) -> Change {
    if updates.len() == 0 {
        Err(profile_error("<profiles>"@, "at least one profile is required"@))
    } else {
        match first_repeat::<ServiceProfileConfig>(updates) {
            Some(i) => Err(ErrorView::DuplicateRule { id: updates[i].id }),
            None => {
                let profiles = upserted::<ServiceProfileConfig>(tables.profiles, updates);
                match compiled_profiles(profiles, tables.client_groups) {
                    Err(error) => Err(error),
                    Ok(_) => if profiles == tables.profiles {
                        Ok((ReloadState::Unchanged, tables))
                    } else {
                        profiles_published(tables, profiles, tables.client_groups)
                    },
                }
            },
        }
    }
}

/// Removing profiles by their numbers.
pub open spec fn profiles_removed(tables: TablesView, ids: Seq<u32>) -> Change {
    let gone = |profile: ProfileView| ids.contains(profile.id);
    if ids.len() == 0 {
        Err(profile_error("<profiles>"@, "at least one profile ID is required"@))
    } else if !loses(tables.profiles, gone) {
        Err(profile_error("<profiles>"@, "no requested profile ID exists"@))
    } else {
        profiles_published(tables, kept(tables.profiles, gone), tables.client_groups)
    }
}

/// The keys of the names.
pub open spec fn keys_of(names: Seq<Seq<char>>) -> Seq<Seq<char>> {
    Seq::new(names.len(), |i: int| key_of(names[i]))
}

/// Whether one of the groups has one of the keys.
pub open spec fn names_one(groups: Seq<Seq<char>>, keys: Seq<Seq<char>>) -> bool {
    exists|k: int| 0 <= k < groups.len() && keys.contains(key_of(#[trigger] groups[k]))
}

/// The first profile, enabled or not, that names a group with one of the keys.
pub open spec fn first_dependent(profiles: Seq<ProfileView>, keys: Seq<Seq<char>>) -> Option<int>
    decreases profiles.len(),
{
    if profiles.len() == 0 {
        None
    } else {
        match first_dependent(profiles.drop_last(), keys) {
            Some(i) => Some(i),
            None => if names_one(profiles.last().groups, keys) {
                Some(profiles.len() - 1)
            } else {
                None
            },
        }
    }
}

proof fn first_dependent_stays(profiles: Seq<ProfileView>, keys: Seq<Seq<char>>, i: int)
    requires
        0 <= i < profiles.len(),
        first_dependent(profiles.take(i + 1), keys) == Some(i),
    ensures
        first_dependent(profiles, keys) == Some(i),
    decreases profiles.len(),
{
    if profiles.len() == i + 1 {
        assert(profiles.take(i + 1) =~= profiles);
    } else {
        assert(profiles.drop_last().take(i + 1) =~= profiles.take(i + 1));
        first_dependent_stays(profiles.drop_last(), keys, i);
    }
}

/// Removing groups by their names. A group goes only where no configured profile names it.
pub open spec fn groups_removed(tables: TablesView, names: Seq<Seq<char>>) -> Change {
    let gone = |group: GroupView| keys_of(names).contains(key_of(group.name));
    if names.len() == 0 {
        Err(profile_error("<client-groups>"@, "at least one client group name is required"@))
    } else if keys_of(names).contains(Seq::<char>::empty()) {
        Err(profile_error("<client-groups>"@, "group names must be non-empty"@))
    } else if !loses(tables.client_groups, gone) {
        Err(profile_error("<client-groups>"@, "no requested group exists"@))
    } else {
        match compiled_profiles(tables.profiles, kept(tables.client_groups, gone)) {
            Err(error) => Err(error),
            Ok(_) => match first_dependent(tables.profiles, keys_of(names)) {
                Some(i) => Err(
                    profile_error(tables.profiles[i].name, "profile depends on a client group"@),
                ),
                None => profiles_published(tables, tables.profiles, kept(tables.client_groups, gone)),
            },
        }
    }
}

/// A group that goes is named by no configured profile, enabled or not.
pub proof fn groups_in_use_are_not_removed(tables: TablesView, names: Seq<Seq<char>>, i: int, k: int)
    requires
        groups_removed(tables, names) is Ok,
        0 <= i < tables.profiles.len(),
        0 <= k < tables.profiles[i].groups.len(),
    ensures
        !keys_of(names).contains(key_of(tables.profiles[i].groups[k])),
{
    no_dependent(tables.profiles, keys_of(names), i);
}

proof fn no_dependent(profiles: Seq<ProfileView>, keys: Seq<Seq<char>>, i: int)
    requires
        first_dependent(profiles, keys) is None,
        0 <= i < profiles.len(),
    ensures
        !names_one(profiles[i].groups, keys),
    decreases profiles.len(),
{
    if i < profiles.len() - 1 {
        no_dependent(profiles.drop_last(), keys, i);
    }
}

fn to_key(name: &str) -> (r: Vec<char>)
    ensures
        r@ == key_of(name@),
{
    let inner = trim(&to_chars(name));
    to_lower(&inner)
}

fn has_key(keys: &[Vec<char>], key: &[char]) -> (r: bool)
    ensures
        r == views(keys@).contains(key@),
{
    let ghost all = views(keys@);
    let mut i: usize = 0;
    while i < keys.len()
        invariant
            i <= keys.len(),
            all == views(keys@),
            forall|k: int| 0 <= k < i ==> all[k] != key@,
        decreases keys.len() - i,
    {
        assert(all[i as int] == keys[i as int]@);
        if same(&keys[i], key) {
            assert(all.contains(key@));
            return true;
        }
        i = i + 1;
    }
    false
}

fn to_keys(names: &[String]) -> (r: Vec<Vec<char>>)
    ensures
        views(r@) == keys_of(texts(names@)),
{
    let ghost all = keys_of(texts(names@));
    let mut out: Vec<Vec<char>> = Vec::new();
    let mut i: usize = 0;
    while i < names.len()
        invariant
            i <= names.len(),
            all == keys_of(texts(names@)),
            views(out@) == all.take(i as int),
        decreases names.len() - i,
    {
        let ghost before = views(out@);
        let key = to_key(names[i].as_str());
        assert(key@ == all[i as int]);
        out.push(key);
        assert(views(out@) =~= before.push(key@));
        i = i + 1;
        assert(views(out@) =~= all.take(i as int));
    }
    assert(all.take(i as int) =~= all);
    out
}

fn has_one(groups: &[String], keys: &[Vec<char>]) -> (r: bool)
    ensures
        r == names_one(texts(groups@), views(keys@)),
{
    let ghost all = texts(groups@);
    let mut i: usize = 0;
    while i < groups.len()
        invariant
            i <= groups.len(),
            all == texts(groups@),
            forall|k: int| 0 <= k < i ==> !views(keys@).contains(key_of(#[trigger] all[k])),
        decreases groups.len() - i,
    {
        let key = to_key(groups[i].as_str());
        assert(all[i as int] == groups[i as int]@);
        if has_key(keys, &key) {
            assert(names_one(all, views(keys@)));
            return true;
        }
        i = i + 1;
    }
    false
}

fn find_dependent(profiles: &[ServiceProfileConfig], keys: &[Vec<char>]) -> (r: Option<usize>)
    ensures
        match first_dependent(profile_views(profiles@), views(keys@)) {
            Some(i) => r is Some && r->0 == i && 0 <= i < profiles@.len(),
            None => r is None,
        },
{
    let ghost all = profile_views(profiles@);
    let ghost wanted = views(keys@);
    let mut i: usize = 0;
    while i < profiles.len()
        invariant
            i <= profiles.len(),
            all == profile_views(profiles@),
            wanted == views(keys@),
            first_dependent(all.take(i as int), wanted) is None,
        decreases profiles.len() - i,
    {
        let ghost next = all.take(i as int + 1);
        assert(next.drop_last() =~= all.take(i as int));
        assert(next.last() == profiles[i as int]@);
        if has_one(&profiles[i].groups, keys) {
            assert(first_dependent(next, wanted) == Some(i as int));
            proof {
                first_dependent_stays(all, wanted, i as int);
            }
            return Some(i);
        }
        i = i + 1;
    }
    assert(all.take(i as int) =~= all);
    None
}

impl Tables {
    /// Expands other profiles and groups, and publishes their rules.
    pub fn publish_profiles(
        &mut self,
        profiles: Vec<ServiceProfileConfig>,
        groups: Vec<ClientGroupConfig>,
    ) -> (r: Result<ReloadState, PolicyError>)
        requires
            old(self).wf(),
        ensures
            performed(
                profiles_published(old(self)@, profile_views(profiles@), group_views(groups@)),
                old(self)@,
                final(self)@,
                r,
            ),
            final(self).wf(),
    {
        let generated = match compile_profiles(&profiles, &groups) {
            Ok(generated) => generated,
            Err(error) => {
                return Err(error);
            },
        };
        let explicit = copy_items(&self.explicit_rules);
        let mut combined = copy_items(&self.explicit_rules);
        append_items(&mut combined, &generated);
        match self.publish_rules(combined, explicit) {
            Ok(outcome) => {
                self.profiles = profiles;
                self.client_groups = groups;
                Ok(outcome)
            },
            Err(error) => Err(error),
        }
    }
}

impl Policy {
    /// Replaces the profiles and the groups.
    pub fn reload_profiles(
        &mut self,
        profiles: &[ServiceProfileConfig],
        client_groups: &[ClientGroupConfig],
    ) -> (r: Result<ReloadState, PolicyError>)
        requires
            old(self).wf(),
        ensures
            performed(
                profiles_replaced(
                    old(self).tables@,
                    profile_views(profiles@),
                    group_views(client_groups@),
                ),
                old(self).tables@,
                final(self).tables@,
                r,
            ),
            final(self).only_tables(old(self)),
            final(self).wf(),
    {
        if same_items(&self.tables.profiles, profiles) && same_items(
            &self.tables.client_groups,
            client_groups,
        ) {
            return Ok(ReloadState::Unchanged);
        }
        self.tables.publish_profiles(copy_items(profiles), copy_items(client_groups))
    }

    /// Replaces groups by their names, and adds those with new names.
    pub fn upsert_client_groups(&mut self, updates: &[ClientGroupConfig]) -> (r: Result<
        ReloadState,
        PolicyError,
    >)
        requires
            old(self).wf(),
        ensures
            performed(
                groups_upserted(old(self).tables@, group_views(updates@)),
                old(self).tables@,
                final(self).tables@,
                r,
            ),
            final(self).only_tables(old(self)),
            final(self).wf(),
    {
        if updates.len() == 0 {
            return Err(refuse_profile("<client-groups>", "at least one client group is required"));
        }
        match find_repeat(updates) {
            Some(i) => {
                assert(group_views(updates@)[i as int] == updates@[i as int]@);
                return Err(
                    refuse_profile(
                        updates[i].name.as_str(),
                        "group name must be unique within an upsert",
                    ),
                );
            },
            None => {},
        }
        let groups = upsert_items(&self.tables.client_groups, updates);
        if same_items(&groups, &self.tables.client_groups) {
            match compile_profiles(&self.tables.profiles, &groups) {
                Ok(_) => {
                    return Ok(ReloadState::Unchanged);
                },
                Err(error) => {
                    return Err(error);
                },
            }
        }
        let profiles = copy_items(&self.tables.profiles);
        self.tables.publish_profiles(profiles, groups)
    }

    /// Replaces profiles by their numbers, and adds those with new numbers.
    pub fn upsert_profiles(&mut self, updates: &[ServiceProfileConfig]) -> (r: Result<
        ReloadState,
        PolicyError,
    >)
        requires
            old(self).wf(),
        ensures
            performed(
                profiles_upserted(old(self).tables@, profile_views(updates@)),
                old(self).tables@,
                final(self).tables@,
                r,
            ),
            final(self).only_tables(old(self)),
            final(self).wf(),
    {
        if updates.len() == 0 {
            return Err(refuse_profile("<profiles>", "at least one profile is required"));
        }
        match find_repeat(updates) {
            Some(i) => {
                assert(profile_views(updates@)[i as int] == updates@[i as int]@);
                return Err(PolicyError::DuplicateRule { id: updates[i].id });
            },
            None => {},
        }
        let profiles = upsert_items(&self.tables.profiles, updates);
        if same_items(&profiles, &self.tables.profiles) {
            match compile_profiles(&profiles, &self.tables.client_groups) {
                Ok(_) => {
                    return Ok(ReloadState::Unchanged);
                },
                Err(error) => {
                    return Err(error);
                },
            }
        }
        let groups = copy_items(&self.tables.client_groups);
        self.tables.publish_profiles(profiles, groups)
    }

    /// Removes profiles by their numbers.
    pub fn remove_profiles(&mut self, ids: &[u32]) -> (r: Result<ReloadState, PolicyError>)
        requires
            old(self).wf(),
        ensures
            performed(
                profiles_removed(old(self).tables@, ids@),
                old(self).tables@,
                final(self).tables@,
                r,
            ),
            final(self).only_tables(old(self)),
            final(self).wf(),
    {
        if ids.len() == 0 {
            return Err(refuse_profile("<profiles>", "at least one profile ID is required"));
        }
        let ghost gone = |profile: ProfileView| ids@.contains(profile.id);
        let current = &self.tables.profiles;
        let mut marks: Vec<bool> = Vec::new();
        let mut i: usize = 0;
        while i < current.len()
            invariant
                i <= current.len(),
                marks@.len() == i,
                forall|k: int|
                    0 <= k < i ==> #[trigger] marks@[k] == ids@.contains(current@[k]@.id),
            decreases current.len() - i,
        {
            marks.push(has_u32(ids, current[i].id));
            i = i + 1;
        }
        let next = keep_items(current, &marks, Ghost(gone));
        assert(item_views(next@).len() == next@.len());
        if next.len() == current.len() {
            return Err(refuse_profile("<profiles>", "no requested profile ID exists"));
        }
        let groups = copy_items(&self.tables.client_groups);
        self.tables.publish_profiles(next, groups)
    }

    /// Removes groups by their names; a profile that needs one of them forbids it.
    pub fn remove_client_groups(&mut self, names: &[String]) -> (r: Result<ReloadState, PolicyError>)
        requires
            old(self).wf(),
        ensures
            performed(
                groups_removed(old(self).tables@, texts(names@)),
                old(self).tables@,
                final(self).tables@,
                r,
            ),
            final(self).only_tables(old(self)),
            final(self).wf(),
    {
        if names.len() == 0 {
            return Err(
                refuse_profile("<client-groups>", "at least one client group name is required"),
            );
        }
        let keys = to_keys(names);
        let empty: Vec<char> = Vec::new();
        assert(empty@ =~= Seq::<char>::empty());
        if has_key(&keys, &empty) {
            return Err(refuse_profile("<client-groups>", "group names must be non-empty"));
        }
        let ghost wanted = keys_of(texts(names@));
        let ghost gone = |group: GroupView| wanted.contains(key_of(group.name));
        let current = &self.tables.client_groups;
        let mut marks: Vec<bool> = Vec::new();
        let mut i: usize = 0;
        while i < current.len()
            invariant
                i <= current.len(),
                wanted == views(keys@),
                marks@.len() == i,
                forall|k: int|
                    0 <= k < i ==> #[trigger] marks@[k] == wanted.contains(
                        key_of(current@[k]@.name),
                    ),
            decreases current.len() - i,
        {
            let key = to_key(current[i].name.as_str());
            marks.push(has_key(&keys, &key));
            i = i + 1;
        }
        let next = keep_items(current, &marks, Ghost(gone));
        assert(item_views(next@).len() == next@.len());
        if next.len() == current.len() {
            return Err(refuse_profile("<client-groups>", "no requested group exists"));
        }
        match compile_profiles(&self.tables.profiles, &next) {
            Ok(_) => {},
            Err(error) => {
                return Err(error);
            },
        }
        match find_dependent(&self.tables.profiles, &keys) {
            Some(i) => {
                return Err(
                    refuse_profile(
                        self.tables.profiles[i].name.as_str(),
                        "profile depends on a client group",
                    ),
                );
            },
            None => {},
        }
        let profiles = copy_items(&self.tables.profiles);
        self.tables.publish_profiles(profiles, next)
    }
}

// ---- identities ----------------------------------------------------------------------

/// Replacing the identities.
pub open spec fn identities_replaced(tables: TablesView, identities: Seq<IdentityView>) -> Change {
    match identities_fault(identities) {
        Some(error) => Err(error),
        None => if tables.client_identities == identities {
            Ok((ReloadState::Unchanged, tables))
        } else {
            Ok(
                (
                    ReloadState::Published,
                    counted(TablesView { client_identities: identities, ..tables }),
                ),
            )
        },
    }
}

/// Replacing or adding identities by their names.
pub open spec fn identities_upserted(tables: TablesView, updates: Seq<IdentityView>) -> Change {
    let next = upserted::<ClientIdentityConfig>(tables.client_identities, updates);
    if updates.len() == 0 {
        Err(identity_error("<client-identities>"@, "at least one identity is required"@))
    } else {
        match identities_fault(next) {
            Some(error) => Err(error),
            None => Ok(
                (
                    ReloadState::Published,
                    counted(TablesView { client_identities: next, ..tables }),
                ),
            ),
        }
    }
}

/// Removing identities by their names.
pub open spec fn identities_removed(tables: TablesView, names: Seq<Seq<char>>) -> Change {
    let gone = |identity: IdentityView| names.contains(identity.name);
    if names.len() == 0 || names.contains(Seq::<char>::empty()) {
        Err(
            identity_error(
                "<client-identities>"@,
                "at least one non-empty identity name is required"@,
            ),
        )
    } else if !loses(tables.client_identities, gone) {
        Err(identity_error("<client-identities>"@, "no requested identity exists"@))
    } else {
        Ok(
            (
                ReloadState::Published,
                counted(
                    TablesView {
                        client_identities: kept(tables.client_identities, gone),
                        ..tables
                    },
                ),
            ),
        )
    }
}

impl Policy {
    /// Replaces the identities.
    pub fn reload_client_identities(&mut self, identities: &[ClientIdentityConfig]) -> (r: Result<
        ReloadState,
        PolicyError,
    >)
        requires
            old(self).wf(),
        ensures
            performed(
                identities_replaced(old(self).tables@, identity_views(identities@)),
                old(self).tables@,
                final(self).tables@,
                r,
            ),
            final(self).only_tables(old(self)),
            final(self).wf(),
    {
        let next = match validate_client_identities(identities) {
            Ok(next) => next,
            Err(error) => {
                return Err(error);
            },
        };
        if same_items(&self.tables.client_identities, &next) {
            return Ok(ReloadState::Unchanged);
        }
        self.tables.client_identities = next;
        self.tables.count();
        Ok(ReloadState::Published)
    }

    /// Replaces identities by their names, and adds those with new names.
    pub fn upsert_client_identities(&mut self, updates: &[ClientIdentityConfig]) -> (r: Result<
        ReloadState,
        PolicyError,
    >)
        requires
            old(self).wf(),
        ensures
            performed(
                identities_upserted(old(self).tables@, identity_views(updates@)),
                old(self).tables@,
                final(self).tables@,
                r,
            ),
            final(self).only_tables(old(self)),
            final(self).wf(),
    {
        if updates.len() == 0 {
            return Err(refuse_identity("at least one identity is required"));
        }
        let proposed = upsert_items(&self.tables.client_identities, updates);
        let next = match validate_client_identities(&proposed) {
            Ok(next) => next,
            Err(error) => {
                return Err(error);
            },
        };
        self.tables.client_identities = next;
        self.tables.count();
        Ok(ReloadState::Published)
    }

    /// Removes identities by their names.
    pub fn remove_client_identities(&mut self, names: &[String]) -> (r: Result<
        ReloadState,
        PolicyError,
    >)
        requires
            old(self).wf(),
        ensures
            performed(
                identities_removed(old(self).tables@, texts(names@)),
                old(self).tables@,
                final(self).tables@,
                r,
            ),
            final(self).only_tables(old(self)),
            final(self).wf(),
    {
        proof {
            reveal_strlit("");
            assert(""@ =~= Seq::<char>::empty());
        }
        if names.len() == 0 || has_text(names, "") {
            return Err(refuse_identity("at least one non-empty identity name is required"));
        }
        let ghost wanted = texts(names@);
        let ghost gone = |identity: IdentityView| wanted.contains(identity.name);
        let current = &self.tables.client_identities;
        let mut marks: Vec<bool> = Vec::new();
        let mut i: usize = 0;
        while i < current.len()
            invariant
                i <= current.len(),
                wanted == texts(names@),
                marks@.len() == i,
                forall|k: int|
                    0 <= k < i ==> #[trigger] marks@[k] == wanted.contains(current@[k]@.name),
            decreases current.len() - i,
        {
            marks.push(has_text(names, current[i].name.as_str()));
            i = i + 1;
        }
        let next = keep_items(current, &marks, Ghost(gone));
        assert(item_views(next@).len() == next@.len());
        if next.len() == current.len() {
            return Err(refuse_identity("no requested identity exists"));
        }
        self.tables.client_identities = next;
        self.tables.count();
        Ok(ReloadState::Published)
    }
}

// ---- local answers -------------------------------------------------------------------

/// Publishing other local answers.
pub open spec fn rewrites_published(tables: TablesView, configs: Seq<RewriteView>) -> Change {
    match compiled_rewrites(configs) {
        Err(error) => Err(error),
        Ok(rewrites) => Ok(
            (
                ReloadState::Published,
                renewed(TablesView { rewrites, rewrite_configs: configs, ..tables }),
            ),
        ),
    }
}

/// Replacing the local answers.
pub open spec fn rewrites_replaced(tables: TablesView, configs: Seq<RewriteView>) -> Change {
    if tables.rewrite_configs == configs {
        Ok((ReloadState::Unchanged, tables))
    } else {
        rewrites_published(tables, configs)
    }
}

/// Replacing or adding local answers by their names.
pub open spec fn rewrites_upserted(tables: TablesView, updates: Seq<RewriteView>) -> Change {
    if updates.len() == 0 {
        Err(rewrite_error("<rewrite-upsert>"@, "at least one rewrite is required"@))
    } else {
        match first_repeat::<RewriteConfig>(updates) {
            Some(i) => Err(
                rewrite_error(updates[i].name, "rewrite name must be unique within an upsert"@),
            ),
            None => rewrites_published(
                tables,
                upserted::<RewriteConfig>(tables.rewrite_configs, updates),
            ),
        }
    }
}

/// The names in normal form.
pub open spec fn normals(names: Seq<Seq<char>>) -> Seq<Seq<char>> {
    Seq::new(names.len(), |i: int| normal(names[i]))
}

/// Removing local answers by their names.
pub open spec fn rewrites_removed(tables: TablesView, names: Seq<Seq<char>>) -> Change {
    let gone = |rewrite: RewriteView| normals(names).contains(normal(rewrite.name));
    if names.len() == 0 {
        Err(rewrite_error("<rewrite-removal>"@, "at least one rewrite name is required"@))
    } else if normals(names).contains(Seq::<char>::empty()) {
        Err(rewrite_error("<rewrite-removal>"@, "rewrite names must be non-empty"@))
    } else if !loses(tables.rewrite_configs, gone) {
        Err(rewrite_error("<rewrite-removal>"@, "no requested rewrite exists"@))
    } else {
        rewrites_published(tables, kept(tables.rewrite_configs, gone))
    }
}

fn to_normals(names: &[String]) -> (r: Vec<Vec<char>>)
    ensures
        views(r@) == normals(texts(names@)),
{
    let ghost all = normals(texts(names@));
    let mut out: Vec<Vec<char>> = Vec::new();
    let mut i: usize = 0;
    while i < names.len()
        invariant
            i <= names.len(),
            all == normals(texts(names@)),
            views(out@) == all.take(i as int),
        decreases names.len() - i,
    {
        let ghost before = views(out@);
        let name = normalize_chars(&to_chars(names[i].as_str()));
        assert(name@ == all[i as int]);
        out.push(name);
        assert(views(out@) =~= before.push(name@));
        i = i + 1;
        assert(views(out@) =~= all.take(i as int));
    }
    assert(all.take(i as int) =~= all);
    out
}

impl Tables {
    /// Compiles other local answers, and publishes them.
    pub fn publish_rewrites(&mut self, configs: Vec<RewriteConfig>) -> (r: Result<
        ReloadState,
        PolicyError,
    >)
        requires
            old(self).wf(),
        ensures
            performed(
                rewrites_published(old(self)@, rewrite_views(configs@)),
                old(self)@,
                final(self)@,
                r,
            ),
            final(self).wf(),
    {
        match compile_rewrites(&configs) {
            Ok(compiled) => {
                self.rewrites = compiled;
                self.rewrite_configs = configs;
                self.renew();
                Ok(ReloadState::Published)
            },
            Err(error) => Err(error),
        }
    }
}

impl Policy {
    /// Replaces the local answers.
    pub fn reload_rewrites(&mut self, configs: &[RewriteConfig]) -> (r: Result<
        ReloadState,
        PolicyError,
    >)
        requires
            old(self).wf(),
        ensures
            performed(
                rewrites_replaced(old(self).tables@, rewrite_views(configs@)),
                old(self).tables@,
                final(self).tables@,
                r,
            ),
            final(self).only_tables(old(self)),
            final(self).wf(),
    {
        if same_items(&self.tables.rewrite_configs, configs) {
            return Ok(ReloadState::Unchanged);
        }
        self.tables.publish_rewrites(copy_items(configs))
    }

    /// Replaces local answers by their names, and adds those with new names.
    pub fn upsert_rewrites(&mut self, updates: &[RewriteConfig]) -> (r: Result<
        ReloadState,
        PolicyError,
    >)
        requires
            old(self).wf(),
        ensures
            performed(
                rewrites_upserted(old(self).tables@, rewrite_views(updates@)),
                old(self).tables@,
                final(self).tables@,
                r,
            ),
            final(self).only_tables(old(self)),
            final(self).wf(),
    {
        if updates.len() == 0 {
            return Err(refuse_rewrite("<rewrite-upsert>", "at least one rewrite is required"));
        }
        match find_repeat(updates) {
            Some(i) => {
                assert(rewrite_views(updates@)[i as int] == updates@[i as int]@);
                return Err(
                    refuse_rewrite(
                        updates[i].name.as_str(),
                        "rewrite name must be unique within an upsert",
                    ),
                );
            },
            None => {},
        }
        let next = upsert_items(&self.tables.rewrite_configs, updates);
        self.tables.publish_rewrites(next)
    }

    /// Removes local answers by their names.
    pub fn remove_rewrites(&mut self, names: &[String]) -> (r: Result<ReloadState, PolicyError>)
        requires
            old(self).wf(),
        ensures
            performed(
                rewrites_removed(old(self).tables@, texts(names@)),
                old(self).tables@,
                final(self).tables@,
                r,
            ),
            final(self).only_tables(old(self)),
            final(self).wf(),
    {
        if names.len() == 0 {
            return Err(
                refuse_rewrite("<rewrite-removal>", "at least one rewrite name is required"),
            );
        }
        let keys = to_normals(names);
        let empty: Vec<char> = Vec::new();
        assert(empty@ =~= Seq::<char>::empty());
        if has_key(&keys, &empty) {
            return Err(refuse_rewrite("<rewrite-removal>", "rewrite names must be non-empty"));
        }
        let ghost wanted = normals(texts(names@));
        let ghost gone = |rewrite: RewriteView| wanted.contains(normal(rewrite.name));
        let current = &self.tables.rewrite_configs;
        let mut marks: Vec<bool> = Vec::new();
        let mut i: usize = 0;
        while i < current.len()
            invariant
                i <= current.len(),
                wanted == views(keys@),
                marks@.len() == i,
                forall|k: int|
                    0 <= k < i ==> #[trigger] marks@[k] == wanted.contains(
                        normal(current@[k]@.name),
                    ),
            decreases current.len() - i,
        {
            let name = normalize_chars(&to_chars(current[i].name.as_str()));
            marks.push(has_key(&keys, &name));
            i = i + 1;
        }
        let next = keep_items(current, &marks, Ghost(gone));
        assert(item_views(next@).len() == next@.len());
        if next.len() == current.len() {
            return Err(refuse_rewrite("<rewrite-removal>", "no requested rewrite exists"));
        }
        self.tables.publish_rewrites(next)
    }
}

// ---- laws ----------------------------------------------------------------------------

/// Published profiles and groups are the ones in force, and their rules stand behind the explicit
/// ones, which stay.
pub proof fn published_profiles_are_in_force(
    tables: TablesView,
    profiles: Seq<ProfileView>,
    groups: Seq<GroupView>,
)
    requires
        compiled_from(tables),
    ensures
        profiles_published(tables, profiles, groups) matches Ok((_, next)) ==> {
            &&& next.profiles == profiles
            &&& next.client_groups == groups
            &&& next.explicit_rules == tables.explicit_rules
            &&& compiled_profiles(profiles, groups) matches Ok(generated) && next.base_rules
                == tables.explicit_rules + generated
            &&& next.blocklist_rules == tables.blocklist_rules
        },
        compiled_profiles(profiles, groups) is Err ==> profiles_published(tables, profiles, groups)
            is Err,
        profiles_replaced(tables, profiles, groups) matches Ok((_, next)) ==> next.profiles
            == profiles && next.client_groups == groups,
{
}

/// Groups that are put in by name are in force afterwards, whatever the case of the name, and the
/// groups with other names stay in their places.
pub proof fn upserted_groups_are_in_force(
    tables: TablesView,
    updates: Seq<GroupView>,
    k: int,
    i: int,
)
    requires
        compiled_from(tables),
    ensures
        updates.len() == 0 ==> groups_upserted(tables, updates) is Err,
        0 <= k < i < updates.len() && lower(trimmed(updates[k].name)) == lower(
            trimmed(updates[i].name),
        ) ==> groups_upserted(tables, updates) is Err,
        groups_upserted(tables, updates) matches Ok((_, next)) ==> {
            &&& 0 <= k < updates.len() ==> next.client_groups.contains(updates[k])
            &&& 0 <= i < tables.client_groups.len() && (forall|j: int|
                0 <= j < updates.len() ==> lower(trimmed((#[trigger] updates[j]).name)) != lower(
                    trimmed(tables.client_groups[i].name),
                )) ==> next.client_groups[i] == tables.client_groups[i]
            &&& next.profiles == tables.profiles
        },
{
    if 0 <= k < i < updates.len() && lower(trimmed(updates[k].name)) == lower(
        trimmed(updates[i].name),
    ) {
        repeated_keys_are_found::<ClientGroupConfig>(updates, k, i);
    }
    if groups_upserted(tables, updates) is Ok {
        if 0 <= k < updates.len() {
            updates_are_in_the_list::<ClientGroupConfig>(tables.client_groups, updates, k);
        }
        if 0 <= i < tables.client_groups.len() && (forall|j: int|
            0 <= j < updates.len() ==> lower(trimmed((#[trigger] updates[j]).name)) != lower(
                trimmed(tables.client_groups[i].name),
            )) {
            upserts_leave_the_others::<ClientGroupConfig>(tables.client_groups, updates, i);
        }
    }
}

/// Groups that are removed by name are gone, and all others stay. A request without a name, with
/// a blank one, or that no group answers to is refused.
pub proof fn removed_groups_are_gone(tables: TablesView, names: Seq<Seq<char>>, k: int, i: int)
    requires
        compiled_from(tables),
    ensures
        names.len() == 0 ==> groups_removed(tables, names) is Err,
        0 <= k < names.len() && trimmed(names[k]).len() == 0 ==> groups_removed(tables, names)
            is Err,
        groups_removed(tables, names) matches Ok((_, next)) ==> {
            &&& next.client_groups.len() < tables.client_groups.len()
            &&& next.profiles == tables.profiles
            &&& 0 <= k < names.len() && 0 <= i < next.client_groups.len() ==> lower(
                trimmed(names[k]),
            ) != lower(trimmed(next.client_groups[i].name))
            &&& 0 <= i < tables.client_groups.len() && (forall|j: int|
                0 <= j < names.len() ==> lower(trimmed(#[trigger] names[j])) != lower(
                    trimmed(tables.client_groups[i].name),
                )) ==> next.client_groups.contains(tables.client_groups[i])
        },
{
    let keys = keys_of(names);
    let gone = |group: GroupView| keys_of(names).contains(key_of(group.name));
    kept_are_not_gone(tables.client_groups, gone);
    if 0 <= k < names.len() {
        assert(keys[k] == lower(trimmed(names[k])));
        if trimmed(names[k]).len() == 0 {
            assert(keys[k] =~= Seq::<char>::empty());
            assert(keys.contains(Seq::<char>::empty()));
        }
    }
    if groups_removed(tables, names) is Ok {
        let rest = kept(tables.client_groups, gone);
        if 0 <= k < names.len() && 0 <= i < rest.len() {
            assert(!gone(rest[i]));
            assert(keys.contains(keys[k]));
        }
        if 0 <= i < tables.client_groups.len() && (forall|j: int|
            0 <= j < names.len() ==> lower(trimmed(#[trigger] names[j])) != lower(
                trimmed(tables.client_groups[i].name),
            )) {
            let key = key_of(tables.client_groups[i].name);
            if keys.contains(key) {
                let j = choose|j: int| 0 <= j < keys.len() && keys[j] == key;
                assert(keys[j] == lower(trimmed(names[j])));
            }
            assert(!gone(tables.client_groups[i]));
        }
    }
}

/// Profiles that are put in by number are in force afterwards, and the profiles with other numbers
/// stay in their places.
pub proof fn upserted_profiles_are_in_force(
    tables: TablesView,
    updates: Seq<ProfileView>,
    k: int,
    i: int,
)
    requires
        compiled_from(tables),
    ensures
        updates.len() == 0 ==> profiles_upserted(tables, updates) is Err,
        0 <= k < i < updates.len() && updates[k].id == updates[i].id ==> profiles_upserted(
            tables,
            updates,
        ) is Err,
        profiles_upserted(tables, updates) matches Ok((_, next)) ==> {
            &&& 0 <= k < updates.len() ==> next.profiles.contains(updates[k])
            &&& 0 <= i < tables.profiles.len() && (forall|j: int|
                0 <= j < updates.len() ==> (#[trigger] updates[j]).id != tables.profiles[i].id)
                ==> next.profiles[i] == tables.profiles[i]
            &&& next.client_groups == tables.client_groups
        },
{
    if 0 <= k < i < updates.len() && updates[k].id == updates[i].id {
        repeated_keys_are_found::<ServiceProfileConfig>(updates, k, i);
    }
    if profiles_upserted(tables, updates) is Ok {
        if 0 <= k < updates.len() {
            updates_are_in_the_list::<ServiceProfileConfig>(tables.profiles, updates, k);
        }
        if 0 <= i < tables.profiles.len() && (forall|j: int|
            0 <= j < updates.len() ==> (#[trigger] updates[j]).id != tables.profiles[i].id) {
            upserts_leave_the_others::<ServiceProfileConfig>(tables.profiles, updates, i);
        }
    }
}

/// Profiles that are removed by number are gone, and all others stay. A request that no profile
/// answers to is refused.
pub proof fn removed_profiles_are_gone(tables: TablesView, ids: Seq<u32>, i: int)
    requires
        compiled_from(tables),
    ensures
        ids.len() == 0 ==> profiles_removed(tables, ids) is Err,
        (forall|k: int|
            0 <= k < tables.profiles.len() ==> !ids.contains((#[trigger] tables.profiles[k]).id))
            ==> profiles_removed(tables, ids) is Err,
        profiles_removed(tables, ids) matches Ok((_, next)) ==> {
            &&& next.profiles.len() < tables.profiles.len()
            &&& next.client_groups == tables.client_groups
            &&& 0 <= i < next.profiles.len() ==> !ids.contains(next.profiles[i].id)
                && tables.profiles.contains(next.profiles[i])
            &&& 0 <= i < tables.profiles.len() && !ids.contains(tables.profiles[i].id)
                ==> next.profiles.contains(tables.profiles[i])
        },
{
    let gone = |profile: ProfileView| ids.contains(profile.id);
    kept_are_not_gone(tables.profiles, gone);
    lists_lose_what_goes(tables.profiles, gone);
    if profiles_removed(tables, ids) is Ok {
        let rest = kept(tables.profiles, gone);
        if 0 <= i < rest.len() {
            assert(!gone(rest[i]));
        }
        if 0 <= i < tables.profiles.len() && !ids.contains(tables.profiles[i].id) {
            assert(!gone(tables.profiles[i]));
        }
    }
}

/// Replaced identities are in force as they were given, where they are valid; nothing else changes.
pub proof fn replaced_identities_are_in_force(tables: TablesView, identities: Seq<IdentityView>)
    ensures
        identities_replaced(tables, identities) is Ok <==> identities_fault(identities) is None,
        identities_replaced(tables, identities) matches Ok((_, next)) ==> next == (TablesView {
            client_identities: identities,
            generation: next.generation,
            ..tables
        }),
{
}

/// Of the identities that are put in by name the last with a name is in force, and those with other
/// names stay in their places.
pub proof fn upserted_identities_are_in_force(
    tables: TablesView,
    updates: Seq<IdentityView>,
    k: int,
    i: int,
)
    ensures
        updates.len() == 0 ==> identities_upserted(tables, updates) is Err,
        identities_upserted(tables, updates) matches Ok((_, next)) ==> {
            &&& identities_fault(next.client_identities) is None
            &&& next == (TablesView {
                client_identities: next.client_identities,
                generation: next.generation,
                ..tables
            })
            &&& 0 <= k < updates.len() && (forall|j: int|
                k < j < updates.len() ==> (#[trigger] updates[j]).name != updates[k].name)
                ==> next.client_identities.contains(updates[k])
            &&& 0 <= i < tables.client_identities.len() && (forall|j: int|
                0 <= j < updates.len() ==> (#[trigger] updates[j]).name
                    != tables.client_identities[i].name) ==> next.client_identities[i]
                == tables.client_identities[i]
        },
{
    if 0 <= k < updates.len() && (forall|j: int|
        k < j < updates.len() ==> (#[trigger] updates[j]).name != updates[k].name) {
        the_last_update_counts::<ClientIdentityConfig>(tables.client_identities, updates, k);
    }
    if 0 <= i < tables.client_identities.len() && (forall|j: int|
        0 <= j < updates.len() ==> (#[trigger] updates[j]).name
            != tables.client_identities[i].name) {
        upserts_leave_the_others::<ClientIdentityConfig>(tables.client_identities, updates, i);
    }
}

/// Identities that are removed by name are gone, and all others stay. A request without a name, with
/// an empty one, or that no identity answers to is refused.
pub proof fn removed_identities_are_gone(tables: TablesView, names: Seq<Seq<char>>, i: int)
    ensures
        names.len() == 0 || names.contains(seq![]) ==> identities_removed(tables, names) is Err,
        (forall|k: int|
            0 <= k < tables.client_identities.len() ==> !names.contains(
                (#[trigger] tables.client_identities[k]).name,
            )) ==> identities_removed(tables, names) is Err,
        identities_removed(tables, names) matches Ok((_, next)) ==> {
            &&& next == (TablesView {
                client_identities: next.client_identities,
                generation: next.generation,
                ..tables
            })
            &&& 0 <= i < next.client_identities.len() ==> !names.contains(
                next.client_identities[i].name,
            ) && tables.client_identities.contains(next.client_identities[i])
            &&& 0 <= i < tables.client_identities.len() && !names.contains(
                tables.client_identities[i].name,
            ) ==> next.client_identities.contains(tables.client_identities[i])
        },
{
    let gone = |identity: IdentityView| names.contains(identity.name);
    kept_are_not_gone(tables.client_identities, gone);
    lists_lose_what_goes(tables.client_identities, gone);
    let rest = kept(tables.client_identities, gone);
    if 0 <= i < rest.len() {
        assert(!gone(rest[i]));
    }
    if 0 <= i < tables.client_identities.len() && !names.contains(
        tables.client_identities[i].name,
    ) {
        assert(!gone(tables.client_identities[i]));
    }
}

/// Published local answers are the ones in force, as they compile; the cached answers are
/// forgotten, and nothing else changes.
pub proof fn published_answers_are_in_force(tables: TablesView, configs: Seq<RewriteView>)
    ensures
        rewrites_published(tables, configs) matches Ok((outcome, next)) ==> {
            &&& outcome == ReloadState::Published
            &&& next.rewrite_configs == configs
            &&& compiled_rewrites(configs) == Ok::<Answers, ErrorView>(next.rewrites)
            &&& next.cache.len() == 0
            &&& next == (TablesView {
                rewrites: next.rewrites,
                rewrite_configs: configs,
                cache: next.cache,
                generation: next.generation,
                ..tables
            })
        },
        rewrites_replaced(tables, configs) matches Ok((outcome, next)) ==> next.rewrite_configs
            == configs && (outcome == ReloadState::Unchanged ==> next == tables),
{
}

/// Local answers that are put in by name are in force afterwards, and those for other names stay in
/// their places.
pub proof fn upserted_answers_are_in_force(
    tables: TablesView,
    updates: Seq<RewriteView>,
    k: int,
    i: int,
)
    ensures
        updates.len() == 0 ==> rewrites_upserted(tables, updates) is Err,
        0 <= k < i < updates.len() && normal(updates[k].name) == normal(updates[i].name)
            ==> rewrites_upserted(tables, updates) is Err,
        rewrites_upserted(tables, updates) matches Ok((_, next)) ==> {
            &&& 0 <= k < updates.len() ==> next.rewrite_configs.contains(updates[k])
            &&& 0 <= i < tables.rewrite_configs.len() && (forall|j: int|
                0 <= j < updates.len() ==> normal((#[trigger] updates[j]).name) != normal(
                    tables.rewrite_configs[i].name,
                )) ==> next.rewrite_configs[i] == tables.rewrite_configs[i]
        },
{
    if 0 <= k < i < updates.len() && normal(updates[k].name) == normal(updates[i].name) {
        repeated_keys_are_found::<RewriteConfig>(updates, k, i);
    }
    if rewrites_upserted(tables, updates) is Ok {
        if 0 <= k < updates.len() {
            updates_are_in_the_list::<RewriteConfig>(tables.rewrite_configs, updates, k);
        }
        if 0 <= i < tables.rewrite_configs.len() && (forall|j: int|
            0 <= j < updates.len() ==> normal((#[trigger] updates[j]).name) != normal(
                tables.rewrite_configs[i].name,
            )) {
            upserts_leave_the_others::<RewriteConfig>(tables.rewrite_configs, updates, i);
        }
    }
}

/// Local answers that are removed by name are gone, and all others stay. A request without a name or
/// that no answer answers to is refused.
pub proof fn removed_answers_are_gone(tables: TablesView, names: Seq<Seq<char>>, k: int, i: int)
    ensures
        names.len() == 0 ==> rewrites_removed(tables, names) is Err,
        0 <= k < names.len() && normal(names[k]).len() == 0 ==> rewrites_removed(tables, names)
            is Err,
        rewrites_removed(tables, names) matches Ok((_, next)) ==> {
            &&& next.rewrite_configs.len() < tables.rewrite_configs.len()
            &&& 0 <= k < names.len() && 0 <= i < next.rewrite_configs.len() ==> normal(names[k])
                != normal(next.rewrite_configs[i].name)
            &&& 0 <= i < tables.rewrite_configs.len() && (forall|j: int|
                0 <= j < names.len() ==> normal(#[trigger] names[j]) != normal(
                    tables.rewrite_configs[i].name,
                )) ==> next.rewrite_configs.contains(tables.rewrite_configs[i])
        },
{
    let keys = normals(names);
    let gone = |rewrite: RewriteView| normals(names).contains(normal(rewrite.name));
    kept_are_not_gone(tables.rewrite_configs, gone);
    if 0 <= k < names.len() {
        assert(keys[k] == normal(names[k]));
        if normal(names[k]).len() == 0 {
            assert(keys[k] =~= Seq::<char>::empty());
            assert(keys.contains(Seq::<char>::empty()));
        }
    }
    if rewrites_removed(tables, names) is Ok {
        let rest = kept(tables.rewrite_configs, gone);
        if 0 <= k < names.len() && 0 <= i < rest.len() {
            assert(!gone(rest[i]));
            assert(keys.contains(keys[k]));
        }
        if 0 <= i < tables.rewrite_configs.len() && (forall|j: int|
            0 <= j < names.len() ==> normal(#[trigger] names[j]) != normal(
                tables.rewrite_configs[i].name,
            )) {
            let key = normal(tables.rewrite_configs[i].name);
            if keys.contains(key) {
                let j = choose|j: int| 0 <= j < keys.len() && keys[j] == key;
                assert(keys[j] == normal(names[j]));
            }
            assert(!gone(tables.rewrite_configs[i]));
        }
    }
}

} // verus!
