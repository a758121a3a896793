//! Service profiles: named bundles of domains, applied to groups of clients, and the domain
//! rules that they expand to.
use vstd::prelude::*;
use vstd::string::*;
use vstd::utf8::is_ascii_chars;

use crate::config::{group_views, profile_views, ClientGroupConfig, GroupView, ProfileView,
    ServiceProfileConfig};
use crate::items::append_items;
use crate::lists::{copy_list, copy_option, copy_texts};
use crate::names::{normal, normalize_chars, MAX_DOMAIN_BYTES};
use crate::net::IpAddr;
use crate::policy::{rule_views, ErrorView, PolicyError, RuleConfig, RuleView,
    MAX_CLIENT_IDENTITY_BYTES, MAX_RULES};
use crate::text::{byte_len, decimal, ending_in_number, joined, lower, same, str_len, texts,
    to_chars, to_lower, to_text, trim, trimmed, utf8_len};
use crate::text_set::TextSet;

verus! {

pub const MAX_PROFILES: usize = 256;

pub const MAX_CLIENT_GROUPS: usize = 256;

pub const MAX_CLIENT_GROUP_ADDRESSES: usize = 1_024;

pub open spec fn profile_error(name: Seq<char>, reason: Seq<char>) -> ErrorView {
    ErrorView::InvalidProfile { name, reason }
}

fn refuse(name: &str, reason: String) -> (r: PolicyError)
    ensures
        r@ == profile_error(name@, reason@),
{
    PolicyError::InvalidProfile { name: name.to_owned(), reason }
}

/// Whether the characters are ASCII.
fn all_ascii(chars: &[char]) -> (r: bool)
    ensures
        r == is_ascii_chars(chars@),
{
    let text = to_text(chars);
    text.as_str().is_ascii()
}

// ---- groups --------------------------------------------------------------------------

/// The name under which a group or a profile is known: without outer space, in lower case.
pub open spec fn key_of(name: Seq<char>) -> Seq<char> {
    lower(trimmed(name))
}

/// What is wrong with a group that follows the given ones.
pub open spec fn group_fault(before: Seq<GroupView>, group: GroupView) -> Option<ErrorView> {
    if trimmed(group.name).len() == 0 || !is_ascii_chars(trimmed(group.name)) {
        Some(profile_error(group.name, "group name must be non-empty ASCII"@))
    } else if group.client_cidrs.len() == 0 && group.client_addresses.len() == 0 {
        Some(
            profile_error(
                group.name,
                "group must contain at least one client address or CIDR"@,
            ),
        )
    } else if group.client_addresses.len() > MAX_CLIENT_GROUP_ADDRESSES {
        Some(
            profile_error(
                group.name,
                "client address count exceeds "@ + decimal(MAX_CLIENT_GROUP_ADDRESSES as nat),
            ),
        )
    } else if !group.client_addresses.no_duplicates() {
        Some(profile_error(group.name, "client addresses must be unique"@))
    } else if find_group(before, key_of(group.name)) is Some {
        Some(profile_error(group.name, "group name must be unique"@))
    } else {
        None
    }
}

/// The position of the first group that is known under the key.
pub open spec fn find_group(groups: Seq<GroupView>, key: Seq<char>) -> Option<int>
    decreases groups.len(),
{
    if groups.len() == 0 {
        None
    } else {
        match find_group(groups.drop_last(), key) {
            Some(i) => Some(i),
            None => if key_of(groups.last().name) == key {
                Some(groups.len() - 1)
            } else {
                None
            },
        }
    }
}

/// What is wrong with the groups: the first fault counts.
pub open spec fn groups_fault(groups: Seq<GroupView>) -> Option<ErrorView>
    decreases groups.len(),
{
    if groups.len() == 0 {
        None
    } else {
        match groups_fault(groups.drop_last()) {
            Some(error) => Some(error),
            None => group_fault(groups.drop_last(), groups.last()),
        }
    }
}

proof fn groups_fault_stays(groups: Seq<GroupView>, n: int)
    requires
        0 <= n <= groups.len(),
        groups_fault(groups.take(n)) is Some,
    ensures
        groups_fault(groups) == groups_fault(groups.take(n)),
    decreases groups.len(),
{
    if n == groups.len() {
        assert(groups.take(n) =~= groups);
    } else {
        assert(groups.drop_last().take(n) =~= groups.take(n));
        groups_fault_stays(groups.drop_last(), n);
    }
}

fn to_key(name: &str) -> (r: Vec<char>)
    ensures
        r@ == key_of(name@),
{
    let chars = to_chars(name);
    let inner = trim(&chars);
    to_lower(&inner)
}

/// The position of the first of the first `count` groups that is known under the key.
fn position_of(groups: &[ClientGroupConfig], count: usize, key: &[char]) -> (r: Option<usize>)
    requires
        count <= groups.len(),
    ensures
        match find_group(group_views(groups@).take(count as int), key@) {
            Some(i) => r is Some && r->0 == i && i < count,
            None => r is None,
        },
{
    let ghost all = group_views(groups@);
    let mut i: usize = 0;
    while i < count
        invariant
            i <= count <= groups.len(),
            all == group_views(groups@),
            find_group(all.take(i as int), key@) is None,
        decreases count - i,
    {
        let ghost next = all.take(i as int + 1);
        assert(next.drop_last() =~= all.take(i as int));
        assert(next.last() == groups[i as int]@);
        let found = to_key(groups[i].name.as_str());
        if same(&found, key) {
            proof {
                assert(all.take(count as int).take(i as int + 1) =~= next);
                find_group_stays(all.take(count as int), key@, i as int);
            }
            return Some(i);
        }
        i = i + 1;
    }
    None
}

proof fn find_group_stays(groups: Seq<GroupView>, key: Seq<char>, i: int)
    requires
        0 <= i < groups.len(),
        find_group(groups.take(i + 1), key) == Some(i),
    ensures
        find_group(groups, key) == Some(i),
    decreases groups.len(),
{
    if groups.len() == i + 1 {
        assert(groups.take(i + 1) =~= groups);
    } else {
        assert(groups.drop_last().take(i + 1) =~= groups.take(i + 1));
        find_group_stays(groups.drop_last(), key, i);
    }
}

fn repeats_address(list: &[IpAddr]) -> (r: bool)
    ensures
        r == !list@.no_duplicates(),
{
    let mut i: usize = 0;
    while i < list.len()
        invariant
            i <= list.len(),
            forall|a: int, b: int| 0 <= a < b < i ==> list@[a] != list@[b],
        decreases list.len() - i,
    {
        let mut k: usize = 0;
        while k < i
            invariant
                k <= i < list.len(),
                forall|a: int| 0 <= a < k ==> list@[a] != list@[i as int],
            decreases i - k,
        {
            if list[k] == list[i] {
                assert(list@[k as int] == list@[i as int]);
                return true;
            }
            k = k + 1;
        }
        i = i + 1;
    }
    false
}

/// Checks the groups.
fn check_groups(groups: &[ClientGroupConfig]) -> (r: Result<(), PolicyError>)
    ensures
        match groups_fault(group_views(groups@)) {
            Some(error) => r is Err && r->Err_0@ == error,
            None => r is Ok,
        },
{
    let ghost all = group_views(groups@);
    let mut i: usize = 0;
    while i < groups.len()
        invariant
            i <= groups.len(),
            all == group_views(groups@),
            groups_fault(all.take(i as int)) is None,
        decreases groups.len() - i,
    {
        let group = &groups[i];
        let ghost next = all.take(i as int + 1);
        proof {
            assert(next.drop_last() =~= all.take(i as int));
            assert(next.last() == group@);
            if group_fault(all.take(i as int), group@) is Some {
                groups_fault_stays(all, i as int + 1);
            }
        }
        let chars = to_chars(group.name.as_str());
        let name = trim(&chars);
        if name.len() == 0 || !all_ascii(&name) {
            return Err(
                refuse(group.name.as_str(), "group name must be non-empty ASCII".to_owned()),
            );
        }
        if group.client_cidrs.len() == 0 && group.client_addresses.len() == 0 {
            return Err(
                refuse(
                    group.name.as_str(),
                    "group must contain at least one client address or CIDR".to_owned(),
                ),
            );
        }
        if group.client_addresses.len() > MAX_CLIENT_GROUP_ADDRESSES {
            return Err(
                refuse(
                    group.name.as_str(),
                    ending_in_number(
                        "client address count exceeds ",
                        MAX_CLIENT_GROUP_ADDRESSES as u64,
                    ),
                ),
            );
        }
        if repeats_address(&group.client_addresses) {
            return Err(
                refuse(group.name.as_str(), "client addresses must be unique".to_owned()),
            );
        }
        let key = to_lower(&name);
        if position_of(groups, i, &key).is_some() {
            return Err(refuse(group.name.as_str(), "group name must be unique".to_owned()));
        }
        i = i + 1;
    }
    assert(all.take(i as int) =~= all);
    Ok(())
}

// ---- scopes --------------------------------------------------------------------------

/// Which clients a rule is for.
pub struct ScopeView {
    pub client: Option<IpAddr>,
    pub cidrs: Seq<Seq<char>>,
}

pub struct ClientScope {
    pub client: Option<IpAddr>,
    pub client_cidrs: Vec<String>,
}

impl View for ClientScope {
    type V = ScopeView;

    open spec fn view(&self) -> ScopeView {
        ScopeView { client: self.client, cidrs: texts(self.client_cidrs@) }
    }
}

pub open spec fn scope_views(list: Seq<ClientScope>) -> Seq<ScopeView> {
    Seq::new(list.len(), |i: int| list[i]@)
}

/// The scopes of a group: one for each address and one for all its networks; none where the
/// group is disabled.
pub open spec fn group_scopes(group: GroupView) -> Seq<ScopeView> {
    if !group.enabled {
        Seq::empty()
    } else {
        let single = Seq::new(
            group.client_addresses.len(),
            |i: int| ScopeView { client: Some(group.client_addresses[i]), cidrs: Seq::empty() },
        );
        if group.client_cidrs.len() > 0 {
            single.push(ScopeView { client: None, cidrs: group.client_cidrs })
        } else {
            single
        }
    }
}

/// The scopes of the groups that are named, in order; an unknown name is reported by its
/// position.
pub open spec fn named_scopes(groups: Seq<GroupView>, names: Seq<Seq<char>>) -> Result<
    Seq<ScopeView>,
    int,
>
    decreases names.len(),
{
    if names.len() == 0 {
        Ok(Seq::empty())
    } else {
        match named_scopes(groups, names.drop_last()) {
            Err(i) => Err(i),
            Ok(scopes) => match find_group(groups, key_of(names.last())) {
                Some(g) => Ok(scopes + group_scopes(groups[g])),
                None => Err(names.len() - 1),
            },
        }
    }
}

proof fn named_scopes_error_stays(groups: Seq<GroupView>, names: Seq<Seq<char>>, n: int)
    requires
        0 <= n <= names.len(),
        named_scopes(groups, names.take(n)) is Err,
    ensures
        named_scopes(groups, names) == named_scopes(groups, names.take(n)),
    decreases names.len(),
{
    if n == names.len() {
        assert(names.take(n) =~= names);
    } else {
        assert(names.drop_last().take(n) =~= names.take(n));
        named_scopes_error_stays(groups, names.drop_last(), n);
    }
}

/// Appends the scopes of a group.
fn push_group_scopes(out: &mut Vec<ClientScope>, group: &ClientGroupConfig)
    ensures
        scope_views(final(out)@) == scope_views(old(out)@) + group_scopes(group@),
{
    let ghost start = scope_views(out@);
    if !group.enabled {
        assert(start + group_scopes(group@) =~= start);
        return;
    }
    let ghost single = Seq::new(
        group@.client_addresses.len(),
        |i: int| ScopeView { client: Some(group@.client_addresses[i]), cidrs: Seq::empty() },
    );
    let mut i: usize = 0;
    assert(start + single.take(0) =~= start);
    while i < group.client_addresses.len()
        invariant
            i <= group.client_addresses.len(),
            single == Seq::new(
                group@.client_addresses.len(),
                |i: int|
                    ScopeView { client: Some(group@.client_addresses[i]), cidrs: Seq::empty() },
            ),
            scope_views(out@) == start + single.take(i as int),
        decreases group.client_addresses.len() - i,
    {
        let ghost before = scope_views(out@);
        let scope = ClientScope {
            client: Some(group.client_addresses[i]),
            client_cidrs: Vec::new(),
        };
        assert(scope@.cidrs =~= Seq::<Seq<char>>::empty());
        assert(scope@ == single[i as int]);
        out.push(scope);
        assert(scope_views(out@) =~= before.push(scope@));
        i = i + 1;
        assert(scope_views(out@) =~= start + single.take(i as int));
    }
    assert(single.take(i as int) =~= single);
    if group.client_cidrs.len() > 0 {
        let ghost before = scope_views(out@);
        let scope = ClientScope { client: None, client_cidrs: copy_texts(&group.client_cidrs) };
        out.push(scope);
        assert(scope_views(out@) =~= before.push(scope@));
        assert(scope_views(out@) =~= start + single.push(scope@));
    }
}

/// The scopes of the groups that are named, or the position of an unknown name.
fn scopes_of_groups(groups: &[ClientGroupConfig], names: &[String]) -> (r: Result<
    Vec<ClientScope>,
    usize,
>)
    ensures
        match named_scopes(group_views(groups@), texts(names@)) {
            Ok(scopes) => r is Ok && scope_views(r->Ok_0@) == scopes,
            Err(i) => r is Err && r->Err_0 == i && 0 <= i < names@.len(),
        },
{
    let ghost known = group_views(groups@);
    let ghost all = texts(names@);
    let mut out: Vec<ClientScope> = Vec::new();
    let mut i: usize = 0;
    assert(scope_views(out@) =~= Seq::<ScopeView>::empty());
    while i < names.len()
        invariant
            i <= names.len(),
            known == group_views(groups@),
            all == texts(names@),
            named_scopes(known, all.take(i as int)) == Ok::<Seq<ScopeView>, int>(
                scope_views(out@),
            ),
        decreases names.len() - i,
    {
        let ghost next = all.take(i as int + 1);
        assert(next.drop_last() =~= all.take(i as int));
        assert(next.last() == names[i as int]@);
        let key = to_key(names[i].as_str());
        assert(known.take(groups.len() as int) =~= known);
        match position_of(groups, groups.len(), &key) {
            Some(g) => {
                assert(known[g as int] == groups[g as int]@);
                push_group_scopes(&mut out, &groups[g]);
            },
            None => {
                proof {
                    named_scopes_error_stays(known, all, i as int + 1);
                }
                return Err(i);
            },
        }
        i = i + 1;
    }
    assert(all.take(i as int) =~= all);
    Ok(out)
}

// ---- profiles ------------------------------------------------------------------------

/// The rule that a profile makes of one domain for one scope.
pub open spec fn profile_rule(
    profile: ProfileView,
    scope: ScopeView,
    domain: Seq<char>,
    id: u32,
) -> RuleView {
    RuleView {
        enabled: true,
        id,
        domain: normal(domain),
        action: profile.action,
        priority: profile.priority,
        qtype: profile.qtype,
        qtypes: profile.qtypes,
        qclass: profile.qclass,
        qclasses: profile.qclasses,
        client: scope.client,
        client_cidr: None,
        client_cidrs: scope.cidrs,
        client_identity: profile.client_identity,
    }
}

/// The first `n` rules of a profile: every domain for the first scope, then for the next. The
/// numbers count up from that of the profile.
pub open spec fn profile_rules(profile: ProfileView, scopes: Seq<ScopeView>, n: int) -> Result<
    Seq<RuleView>,
    ErrorView,
>
    decreases n,
{
    if n <= 0 {
        Ok(Seq::empty())
    } else {
        let k = n - 1;
        let count = profile.domains.len() as int;
        let domain = profile.domains[k % count];
        match profile_rules(profile, scopes, k) {
            Err(error) => Err(error),
            Ok(rules) => if profile.id + k > u32::MAX {
                Err(profile_error(profile.name, "id range overflows"@))
            } else if byte_len(normal(domain)) == 0 || byte_len(normal(domain)) > MAX_DOMAIN_BYTES {
                Err(profile_error(profile.name, "invalid domain "@ + normal(domain)))
            } else {
                Ok(
                    rules.push(
                        profile_rule(profile, scopes[k / count], domain, (profile.id + k) as u32),
                    ),
                )
            },
        }
    }
}

/// An identity label of a profile: bounded, ASCII and not blank.
pub open spec fn profile_identity(label: Seq<char>) -> bool {
    trimmed(label).len() > 0 && is_ascii_chars(label) && byte_len(label)
        <= MAX_CLIENT_IDENTITY_BYTES
}

/// The scopes that a profile is applied to.
pub open spec fn profile_scopes(groups: Seq<GroupView>, profile: ProfileView) -> Result<
    Seq<ScopeView>,
    ErrorView,
> {
    if profile.groups.len() == 0 {
        Ok(seq![ScopeView { client: None, cidrs: profile.client_cidrs }])
    } else {
        match named_scopes(groups, profile.groups) {
            Ok(scopes) => Ok(scopes),
            Err(i) => Err(
                profile_error(profile.name, "unknown client group "@ + profile.groups[i]),
            ),
        }
    }
}

/// The rules of an enabled profile.
pub open spec fn expanded(groups: Seq<GroupView>, profile: ProfileView) -> Result<
    Seq<RuleView>,
    ErrorView,
> {
    if profile.groups.len() > 0 && profile.client_cidrs.len() > 0 {
        Err(profile_error(profile.name, "groups and client_cidrs are mutually exclusive"@))
    } else if profile.client_identity is Some && !profile_identity(profile.client_identity->0) {
        Err(profile_error(profile.name, "client_identity must be bounded non-empty ASCII"@))
    } else {
        match profile_scopes(groups, profile) {
            Err(error) => Err(error),
            Ok(scopes) => if profile.domains.len() * scopes.len() > usize::MAX {
                Err(profile_error(profile.name, "expanded domain count overflows"@))
            } else if profile.domains.len() * scopes.len() > MAX_RULES {
                Err(
                    profile_error(
                        profile.name,
                        "expanded domain count exceeds "@ + decimal(MAX_RULES as nat),
                    ),
                )
            } else {
                profile_rules(profile, scopes, (profile.domains.len() * scopes.len()) as int)
            },
        }
    }
}

/// What is wrong with a profile before it is expanded. `names` are the profiles before it, and
/// `total` is the number of their domains.
pub open spec fn profile_fault(names: Set<Seq<char>>, total: nat, profile: ProfileView) -> Option<
    ErrorView,
> {
    let name = trimmed(profile.name);
    if name.len() == 0 || !is_ascii_chars(name) || names.contains(key_of(profile.name)) {
        Some(profile_error(profile.name, "name must be non-empty ASCII and unique"@))
    } else if profile.domains.len() == 0 || profile.domains.len() > MAX_RULES {
        Some(profile_error(profile.name, "domains must be non-empty and bounded"@))
    } else if total + profile.domains.len() > MAX_RULES {
        Some(
            profile_error(
                profile.name,
                "combined domain count exceeds "@ + decimal(MAX_RULES as nat),
            ),
        )
    } else {
        None
    }
}

/// The keys of the profiles.
pub open spec fn profile_keys(profiles: Seq<ProfileView>) -> Set<Seq<char>>
    decreases profiles.len(),
{
    if profiles.len() == 0 {
        Set::empty()
    } else {
        profile_keys(profiles.drop_last()).insert(key_of(profiles.last().name))
    }
}

/// The number of domains of the profiles.
pub open spec fn profile_domains(profiles: Seq<ProfileView>) -> nat
    decreases profiles.len(),
{
    if profiles.len() == 0 {
        0
    } else {
        profile_domains(profiles.drop_last()) + profiles.last().domains.len()
    }
}

/// The rules of the profiles, in order; a disabled profile is checked but adds none.
pub open spec fn all_rules(groups: Seq<GroupView>, profiles: Seq<ProfileView>) -> Result<
    Seq<RuleView>,
    ErrorView,
>
    decreases profiles.len(),
{
    if profiles.len() == 0 {
        Ok(Seq::empty())
    } else {
        let front = profiles.drop_last();
        let profile = profiles.last();
        match all_rules(groups, front) {
            Err(error) => Err(error),
            Ok(rules) => match profile_fault(profile_keys(front), profile_domains(front), profile) {
                Some(error) => Err(error),
                None => if !profile.enabled {
                    Ok(rules)
                } else {
                    match expanded(groups, profile) {
                        Err(error) => Err(error),
                        Ok(more) => Ok(rules + more),
                    }
                },
            },
        }
    }
}

/// What the profiles and the groups expand to.
pub open spec fn compiled_profiles(profiles: Seq<ProfileView>, groups: Seq<GroupView>) -> Result<
    Seq<RuleView>,
    ErrorView,
> {
    if profiles.len() > MAX_PROFILES {
        Err(profile_error("<table>"@, "profile count exceeds "@ + decimal(MAX_PROFILES as nat)))
    } else if groups.len() > MAX_CLIENT_GROUPS {
        Err(
            profile_error(
                "<groups>"@,
                "client-group count exceeds "@ + decimal(MAX_CLIENT_GROUPS as nat),
            ),
        )
    } else {
        match groups_fault(groups) {
            Some(error) => Err(error),
            None => all_rules(groups, profiles),
        }
    }
}

proof fn all_rules_error_stays(groups: Seq<GroupView>, profiles: Seq<ProfileView>, n: int)
    requires
        0 <= n <= profiles.len(),
        all_rules(groups, profiles.take(n)) is Err,
    ensures
        all_rules(groups, profiles) == all_rules(groups, profiles.take(n)),
    decreases profiles.len(),
{
    if n == profiles.len() {
        assert(profiles.take(n) =~= profiles);
    } else {
        assert(profiles.drop_last().take(n) =~= profiles.take(n));
        all_rules_error_stays(groups, profiles.drop_last(), n);
    }
}

proof fn profile_rules_error_stays(profile: ProfileView, scopes: Seq<ScopeView>, k: int, n: int)
    requires
        0 <= k <= n,
        profile_rules(profile, scopes, k) is Err,
    ensures
        profile_rules(profile, scopes, n) == profile_rules(profile, scopes, k),
    decreases n - k,
{
    if k < n {
        profile_rules_error_stays(profile, scopes, k, n - 1);
    }
}

/// The rules of a profile for its scopes.
fn expand_domains(profile: &ServiceProfileConfig, scopes: &[ClientScope], total: usize) -> (r: Result<
    Vec<RuleConfig>,
    PolicyError,
>)
    requires
        profile.domains@.len() > 0,
        total == profile.domains@.len() * scopes@.len(),
        total <= MAX_RULES,
    ensures
        match profile_rules(profile@, scope_views(scopes@), total as int) {
            Ok(rules) => r is Ok && rule_views(r->Ok_0@) == rules,
            Err(error) => r is Err && r->Err_0@ == error,
        },
{
    let ghost view = profile@;
    let ghost places = scope_views(scopes@);
    let count: usize = profile.domains.len();
    let mut out: Vec<RuleConfig> = Vec::new();
    let mut k: usize = 0;
    assert(rule_views(out@) =~= Seq::<RuleView>::empty());
    while k < total
        invariant
            k <= total <= MAX_RULES,
            count == profile.domains.len(),
            count > 0,
            total == count * scopes@.len(),
            view == profile@,
            places == scope_views(scopes@),
            profile_rules(view, places, k as int) == Ok::<Seq<RuleView>, ErrorView>(
                rule_views(out@),
            ),
        decreases total - k,
    {
        let s: usize = k / count;
        let d: usize = k % count;
        proof {
            assert(s < scopes@.len() && d < count) by (nonlinear_arith)
                requires
                    k < count * scopes@.len(),
                    count > 0,
                    s == k as int / count as int,
                    d == k as int % count as int,
            ;
            assert(view.domains[d as int] == profile.domains@[d as int]@);
            assert(places[s as int] == scopes@[s as int]@);
        }
        let id: u32 = match profile.id.checked_add(k as u32) {
            Some(id) => id,
            None => {
                proof {
                    profile_rules_error_stays(view, places, k as int + 1, total as int);
                }
                return Err(refuse(profile.name.as_str(), "id range overflows".to_owned()));
            },
        };
        let raw = to_chars(profile.domains[d].as_str());
        let domain = normalize_chars(&raw);
        let size: usize = utf8_len(&domain);
        let text = to_text(&domain);
        if size == 0 || size > MAX_DOMAIN_BYTES {
            proof {
                profile_rules_error_stays(view, places, k as int + 1, total as int);
            }
            return Err(refuse(profile.name.as_str(), joined("invalid domain ", text.as_str())));
        }
        let rule = RuleConfig {
            enabled: true,
            id,
            domain: text,
            action: profile.action,
            priority: profile.priority,
            qtype: profile.qtype,
            qtypes: copy_list(&profile.qtypes),
            qclass: profile.qclass,
            qclasses: copy_list(&profile.qclasses),
            client: scopes[s].client,
            client_cidr: None,
            client_cidrs: copy_texts(&scopes[s].client_cidrs),
            client_identity: copy_option(&profile.client_identity),
        };
        let ghost before = rule_views(out@);
        assert(rule@ == profile_rule(
            view,
            places[s as int],
            view.domains[d as int],
            (view.id + k) as u32,
        ));
        out.push(rule);
        assert(rule_views(out@) =~= before.push(rule@));
        k = k + 1;
    }
    Ok(out)
}

/// The rules of an enabled profile.
fn expand_profile(profile: &ServiceProfileConfig, groups: &[ClientGroupConfig]) -> (r: Result<
    Vec<RuleConfig>,
    PolicyError,
>)
    requires
        profile.domains@.len() > 0,
    ensures
        match expanded(group_views(groups@), profile@) {
            Ok(rules) => r is Ok && rule_views(r->Ok_0@) == rules,
            Err(error) => r is Err && r->Err_0@ == error,
        },
{
    if profile.groups.len() > 0 && profile.client_cidrs.len() > 0 {
        return Err(
            refuse(
                profile.name.as_str(),
                "groups and client_cidrs are mutually exclusive".to_owned(),
            ),
        );
    }
    match &profile.client_identity {
        Some(label) => {
            let chars = to_chars(label.as_str());
            let inner = trim(&chars);
            if inner.len() == 0 || !label.as_str().is_ascii() || str_len(label.as_str())
                > MAX_CLIENT_IDENTITY_BYTES {
                return Err(
                    refuse(
                        profile.name.as_str(),
                        "client_identity must be bounded non-empty ASCII".to_owned(),
                    ),
                );
            }
        },
        None => {},
    }
    let scopes = if profile.groups.len() == 0 {
        let mut single: Vec<ClientScope> = Vec::new();
        single.push(ClientScope { client: None, client_cidrs: copy_texts(&profile.client_cidrs) });
        assert(scope_views(single@) =~= seq![
            ScopeView { client: None, cidrs: profile@.client_cidrs },
        ]);
        single
    } else {
        match scopes_of_groups(groups, &profile.groups) {
            Ok(scopes) => scopes,
            Err(i) => {
                assert(profile@.groups[i as int] == profile.groups@[i as int]@);
                return Err(
                    refuse(
                        profile.name.as_str(),
                        joined("unknown client group ", profile.groups[i].as_str()),
                    ),
                );
            },
        }
    };
    assert(scope_views(scopes@).len() == scopes@.len());
    match profile.domains.len().checked_mul(scopes.len()) {
        None => Err(
            refuse(profile.name.as_str(), "expanded domain count overflows".to_owned()),
        ),
        Some(total) => {
            if total > MAX_RULES {
                return Err(
                    refuse(
                        profile.name.as_str(),
                        ending_in_number("expanded domain count exceeds ", MAX_RULES as u64),
                    ),
                );
            }
            expand_domains(profile, &scopes, total)
        },
    }
}

/// Checks the profiles and the groups, and expands the enabled profiles to rules.
pub fn compile_profiles(profiles: &[ServiceProfileConfig], groups: &[ClientGroupConfig]) -> (r: Result<
    Vec<RuleConfig>,
    PolicyError,
>)
    ensures
        match compiled_profiles(profile_views(profiles@), group_views(groups@)) {
            Ok(rules) => r is Ok && rule_views(r->Ok_0@) == rules,
            Err(error) => r is Err && r->Err_0@ == error,
        },
{
    let ghost all = profile_views(profiles@);
    let ghost known = group_views(groups@);
    if profiles.len() > MAX_PROFILES {
        return Err(
            refuse("<table>", ending_in_number("profile count exceeds ", MAX_PROFILES as u64)),
        );
    }
    if groups.len() > MAX_CLIENT_GROUPS {
        return Err(
            refuse(
                "<groups>",
                ending_in_number("client-group count exceeds ", MAX_CLIENT_GROUPS as u64),
            ),
        );
    }
    match check_groups(groups) {
        Ok(()) => {},
        Err(error) => {
            return Err(error);
        },
    }
    let mut names = TextSet::new();
    let mut rules: Vec<RuleConfig> = Vec::new();
    let mut total: usize = 0;
    let mut i: usize = 0;
    assert(rule_views(rules@) =~= Seq::<RuleView>::empty());
    while i < profiles.len()
        invariant
            i <= profiles.len() <= MAX_PROFILES,
            groups@.len() <= MAX_CLIENT_GROUPS,
            all == profile_views(profiles@),
            known == group_views(groups@),
            groups_fault(known) is None,
            names.wf(),
            names@ == profile_keys(all.take(i as int)),
            total == profile_domains(all.take(i as int)),
            total <= MAX_RULES,
            all_rules(known, all.take(i as int)) == Ok::<Seq<RuleView>, ErrorView>(
                rule_views(rules@),
            ),
        decreases profiles.len() - i,
    {
        let profile = &profiles[i];
        let ghost front = all.take(i as int);
        let ghost next = all.take(i as int + 1);
        proof {
            assert(next.drop_last() =~= front);
            assert(next.last() == profile@);
            if all_rules(known, next) is Err {
                all_rules_error_stays(known, all, i as int + 1);
            }
        }
        let chars = to_chars(profile.name.as_str());
        let name = trim(&chars);
        let key = to_lower(&name);
        if name.len() == 0 || !all_ascii(&name) || names.contains(&key) {
            return Err(
                refuse(
                    profile.name.as_str(),
                    "name must be non-empty ASCII and unique".to_owned(),
                ),
            );
        }
        names.insert(&key);
        if profile.domains.len() == 0 || profile.domains.len() > MAX_RULES {
            return Err(
                refuse(profile.name.as_str(), "domains must be non-empty and bounded".to_owned()),
            );
        }
        let sum: usize = total + profile.domains.len();
        if sum > MAX_RULES {
            return Err(
                refuse(
                    profile.name.as_str(),
                    ending_in_number("combined domain count exceeds ", MAX_RULES as u64),
                ),
            );
        }
        total = sum;
        if profile.enabled {
            match expand_profile(profile, groups) {
                Ok(more) => {
                    append_items(&mut rules, &more);
                },
                Err(error) => {
                    return Err(error);
                },
            }
        }
        i = i + 1;
    }
    assert(all.take(i as int) =~= all);
    Ok(rules)
}

/// The rules of a profile carry its number and the ones that follow it, without a gap, and
/// each is for one of its domains and one of its scopes.
pub proof fn profile_rules_are_numbered(profile: ProfileView, scopes: Seq<ScopeView>, n: int, i: int)
    requires
        0 <= i < n,
        profile.domains.len() > 0,
        profile_rules(profile, scopes, n) is Ok,
    ensures
        profile_rules(profile, scopes, n)->Ok_0.len() == n,
        ({
            let count = profile.domains.len() as int;
            let rule = profile_rules(profile, scopes, n)->Ok_0[i];
            &&& rule.id == profile.id + i
            &&& rule == profile_rule(
                profile,
                scopes[i / count],
                profile.domains[i % count],
                (profile.id + i) as u32,
            )
        }),
    decreases n,
{
    let before = profile_rules(profile, scopes, n - 1);
    assert(before is Ok);
    if n - 1 > i {
        profile_rules_are_numbered(profile, scopes, n - 1, i);
    } else if n - 1 > 0 {
        profile_rules_are_numbered(profile, scopes, n - 1, 0);
    }
}

/// What each rule of an enabled profile says: it is in force, blocks or answers as the profile
/// does, with its rank and its filters, and is for one of its domains and for the clients of one
/// of its scopes. There is one for every pair of them.
pub proof fn profile_rules_say_what_the_profile_says(
    groups: Seq<GroupView>,
    profile: ProfileView,
    s: int,
    d: int,
)
    requires
        expanded(groups, profile) is Ok,
        0 <= s < profile_scopes(groups, profile)->Ok_0.len(),
        0 <= d < profile.domains.len(),
    ensures
        ({
            let scopes = profile_scopes(groups, profile)->Ok_0;
            let rules = expanded(groups, profile)->Ok_0;
            let rule = rules[s * profile.domains.len() + d];
            &&& rules.len() == profile.domains.len() * scopes.len() <= 65_536
            &&& rule.enabled
            &&& rule.id == profile.id + s * profile.domains.len() + d
            &&& rule.domain == normal(profile.domains[d])
            &&& rule.action == profile.action
            &&& rule.priority == profile.priority
            &&& rule.qtype == profile.qtype && rule.qtypes == profile.qtypes
            &&& rule.qclass == profile.qclass && rule.qclasses == profile.qclasses
            &&& rule.client == scopes[s].client
            &&& rule.client_cidr is None
            &&& rule.client_cidrs == scopes[s].cidrs
            &&& rule.client_identity == profile.client_identity
        }),
{
    let scopes = profile_scopes(groups, profile)->Ok_0;
    let count = profile.domains.len() as int;
    let n = count * scopes.len();
    let i = s * count + d;
    assert(0 <= i < n) by (nonlinear_arith)
        requires
            0 <= s < scopes.len(),
            0 <= d < count,
            n == count * scopes.len(),
            i == s * count + d,
    ;
    assert(s * count == count * s) by (nonlinear_arith);
    vstd::arithmetic::div_mod::lemma_fundamental_div_mod_converse(i, count, s, d);
    profile_rules_are_numbered(profile, scopes, n, i);
}

/// A profile without groups is for the clients of its networks, or for everybody where it has
/// none.
pub proof fn profiles_without_groups_are_for_their_networks(
    groups: Seq<GroupView>,
    profile: ProfileView,
)
    requires
        profile.groups.len() == 0,
    ensures
        profile_scopes(groups, profile) matches Ok(scopes) && scopes.len() == 1 && scopes[0].client
            is None && scopes[0].cidrs == profile.client_cidrs,
{
}

/// A group is found by its name, whatever its case and the space around it.
pub proof fn groups_are_found_by_name(groups: Seq<GroupView>, name: Seq<char>)
    ensures
        match find_group(groups, key_of(name)) {
            Some(i) => 0 <= i < groups.len() && lower(trimmed(groups[i].name)) == lower(
                trimmed(name),
            ) && forall|k: int|
                0 <= k < i ==> lower(trimmed((#[trigger] groups[k]).name)) != lower(trimmed(name)),
            None => forall|k: int|
                0 <= k < groups.len() ==> lower(trimmed((#[trigger] groups[k]).name)) != lower(
                    trimmed(name),
                ),
        },
    decreases groups.len(),
{
    if groups.len() > 0 {
        let front = groups.drop_last();
        groups_are_found_by_name(front, name);
        if find_group(front, key_of(name)) is None {
            assert forall|k: int| 0 <= k < front.len() implies lower(
                trimmed((#[trigger] groups[k]).name),
            ) != lower(trimmed(name)) by {
                assert(front[k] == groups[k]);
            }
        } else {
            let i = find_group(front, key_of(name))->0;
            assert(front[i] == groups[i]);
            assert forall|k: int| 0 <= k < i implies lower(trimmed((#[trigger] groups[k]).name))
                != lower(trimmed(name)) by {
                assert(front[k] == groups[k]);
            }
        }
    }
}

/// A group stands for its members: one scope for each address and one for all its networks,
/// and none of either where the group is disabled.
pub proof fn groups_stand_for_their_members(group: GroupView)
    ensures
        !group.enabled ==> group_scopes(group).len() == 0,
        group.enabled ==> forall|a: int|
            0 <= a < group.client_addresses.len() ==> group_scopes(group)[a].client == Some(
                #[trigger] group.client_addresses[a],
            ) && group_scopes(group)[a].cidrs.len() == 0,
        group.enabled && group.client_cidrs.len() > 0 ==> group_scopes(group).last().client is None
            && group_scopes(group).last().cidrs == group.client_cidrs,
        group.enabled ==> group_scopes(group).len() == group.client_addresses.len() + (if group.client_cidrs.len()
            > 0 {
            1int
        } else {
            0
        }),
{
}

/// The scopes of named groups are those of each of them.
pub proof fn named_groups_all_count(groups: Seq<GroupView>, names: Seq<Seq<char>>, k: int, i: int)
    requires
        named_scopes(groups, names) is Ok,
        0 <= k < names.len(),
    ensures
        find_group(groups, key_of(names[k])) is Some,
        ({
            let mine = group_scopes(groups[find_group(groups, key_of(names[k]))->0]);
            0 <= i < mine.len() ==> named_scopes(groups, names)->Ok_0.contains(mine[i])
        }),
    decreases names.len(),
{
    let front = names.drop_last();
    let before = named_scopes(groups, front)->Ok_0;
    let all = named_scopes(groups, names)->Ok_0;
    if k < front.len() {
        named_groups_all_count(groups, front, k, i);
        assert(front[k] == names[k]);
        let mine = group_scopes(groups[find_group(groups, key_of(names[k]))->0]);
        if 0 <= i < mine.len() {
            let at = choose|at: int| 0 <= at < before.len() && before[at] == mine[i];
            assert(all[at] == mine[i]);
        }
    } else {
        let mine = group_scopes(groups[find_group(groups, key_of(names[k]))->0]);
        if 0 <= i < mine.len() {
            assert(all[before.len() + i] == mine[i]);
        }
    }
}

/// Every enabled profile gives its rules and no other profile gives any.
pub proof fn enabled_profiles_give_their_rules(
    groups: Seq<GroupView>,
    profiles: Seq<ProfileView>,
    p: int,
    i: int,
)
    requires
        all_rules(groups, profiles) is Ok,
        0 <= p < profiles.len(),
    ensures
        profiles[p].enabled ==> expanded(groups, profiles[p]) is Ok,
        profiles[p].enabled && 0 <= i < expanded(groups, profiles[p])->Ok_0.len() ==> all_rules(
            groups,
            profiles,
        )->Ok_0.contains(expanded(groups, profiles[p])->Ok_0[i]),
    decreases profiles.len(),
{
    let front = profiles.drop_last();
    let before = all_rules(groups, front)->Ok_0;
    let all = all_rules(groups, profiles)->Ok_0;
    if p < front.len() {
        enabled_profiles_give_their_rules(groups, front, p, i);
        assert(front[p] == profiles[p]);
        if profiles[p].enabled && 0 <= i < expanded(groups, profiles[p])->Ok_0.len() {
            let rule = expanded(groups, profiles[p])->Ok_0[i];
            let at = choose|at: int| 0 <= at < before.len() && before[at] == rule;
            assert(all[at] == rule);
        }
    } else if profiles[p].enabled && 0 <= i < expanded(groups, profiles[p])->Ok_0.len() {
        assert(all[before.len() + i] == expanded(groups, profiles[p])->Ok_0[i]);
    }
}

/// Where no profile is enabled there are no rules.
pub proof fn disabled_profiles_give_no_rules(groups: Seq<GroupView>, profiles: Seq<ProfileView>)
    requires
        forall|p: int| 0 <= p < profiles.len() ==> !(#[trigger] profiles[p]).enabled,
    ensures
        all_rules(groups, profiles) matches Ok(rules) ==> rules.len() == 0,
    decreases profiles.len(),
{
    if profiles.len() > 0 {
        let front = profiles.drop_last();
        assert forall|p: int| 0 <= p < front.len() implies !(#[trigger] front[p]).enabled by {
            assert(front[p] == profiles[p]);
        }
        disabled_profiles_give_no_rules(groups, front);
        assert(!profiles[profiles.len() - 1].enabled);
    }
}

proof fn keys_hold_each_name(profiles: Seq<ProfileView>, k: int)
    requires
        0 <= k < profiles.len(),
    ensures
        profile_keys(profiles).contains(lower(trimmed(profiles[k].name))),
    decreases profiles.len(),
{
    if k < profiles.len() - 1 {
        keys_hold_each_name(profiles.drop_last(), k);
    }
}

/// Accepted profiles have names of their own, one domain at least, and one way of saying whom they
/// are for; there are no more of them than the limit.
pub proof fn accepted_profiles_are_clear(
    groups: Seq<GroupView>,
    profiles: Seq<ProfileView>,
    k: int,
    p: int,
)
    requires
        all_rules(groups, profiles) is Ok,
        0 <= k < p < profiles.len(),
    ensures
        lower(trimmed(profiles[k].name)) != lower(trimmed(profiles[p].name)),
        trimmed(profiles[p].name).len() > 0,
        1 <= profiles[p].domains.len() <= 65_536,
        profiles[p].enabled ==> profiles[p].groups.len() == 0 || profiles[p].client_cidrs.len()
            == 0,
        profiles[p].enabled && profiles[p].client_identity is Some ==> byte_len(
            profiles[p].client_identity->0,
        ) <= 128,
    decreases profiles.len(),
{
    let front = profiles.drop_last();
    if p < front.len() {
        accepted_profiles_are_clear(groups, front, k, p);
    } else {
        keys_hold_each_name(front, k);
    }
}

/// Accepted groups have names of their own and one member at least, no address twice, and no more
/// addresses than the limit.
pub proof fn accepted_groups_are_clear(groups: Seq<GroupView>, g: int, k: int)
    requires
        groups_fault(groups) is None,
        0 <= g < groups.len(),
    ensures
        trimmed(groups[g].name).len() > 0,
        groups[g].client_cidrs.len() > 0 || groups[g].client_addresses.len() > 0,
        groups[g].client_addresses.len() <= 1_024,
        groups[g].client_addresses.no_duplicates(),
        0 <= k < g ==> lower(trimmed(groups[k].name)) != lower(trimmed(groups[g].name)),
    decreases groups.len(),
{
    let front = groups.drop_last();
    if g < front.len() {
        accepted_groups_are_clear(front, g, k);
    } else {
        groups_are_found_by_name(front, groups[g].name);
        if 0 <= k < g {
            assert(front[k] == groups[k]);
        }
    }
}

/// No more than 256 profiles and 256 groups are accepted.
pub proof fn profiles_and_groups_are_bounded(profiles: Seq<ProfileView>, groups: Seq<GroupView>)
    ensures
        compiled_profiles(profiles, groups) is Ok ==> profiles.len() <= 256 && groups.len() <= 256
            && groups_fault(groups) is None && compiled_profiles(profiles, groups) == all_rules(
            groups,
            profiles,
        ),
{
}

} // verus!
