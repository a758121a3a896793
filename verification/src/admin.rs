//! The operators' side: which request is which, and what each change is answered with.
use vstd::prelude::*;
use vstd::string::*;

use crate::blocklist::{source_views, BlocklistSource, SourceView};
use crate::bundle::{accepted_bundles_are_in_force, bundle_replaced, kept_lists_are_retained, BundleView};
use crate::config::{group_views, profile_views, regex_views, rewrite_views, ClientGroupConfig,
    CountryPolicyConfig, RegexRuleConfig, RewriteConfig, ServiceProfileConfig};
use crate::country::{loaded, CountryPolicyView, CountrySource};
use crate::membership::{profiles_replaced, published_profiles_are_in_force};
use crate::net::{IpAddr, SocketAddr};
use crate::policy::{rule_views, ErrorView, PolicyError, RuleConfig};
use crate::recording::LogEvent;
use crate::reload::{regex_replaced, removed_rules_are_gone, replaced_rules_are_in_force, rules_removed,
    rules_replaced};
use crate::runtime::Policy;
use crate::sources::{country_reloaded, lists_are_read, lists_reloaded, read_maps_are_in_force,
    rules_come_from_the_enabled_sources};
use crate::state::{compiled_from, Change, ReloadState, TablesView};
use crate::text::{byte_len, is_text, same, str_len, strip_prefix, to_chars};

verus! {

/// The most bytes of a body that are read.
pub const MAX_POLICY_BODY_BYTES: usize = 65_536;

pub const MAX_TOKEN_BYTES: usize = 4_096;

// ---- who may ask ---------------------------------------------------------------------

pub open spec fn loopback(ip: IpAddr) -> bool {
    match ip {
        IpAddr::V4(value) => value / 0x100_0000 == 127,
        IpAddr::V6(value) => value == 1,
    }
}

/// Checks that operators are only listened to on the local host.
pub fn validate_bind(bind: SocketAddr) -> (r: Result<(), &'static str>)
    ensures
        r is Ok <==> loopback(bind.ip),
        r is Err ==> r->Err_0@
            == "admin.listen must be a loopback address until admin TLS is available"@,
{
    let local = match bind.ip {
        IpAddr::V4(value) => value / 0x100_0000 == 127,
        IpAddr::V6(value) => value == 1,
    };
    if local {
        Ok(())
    } else {
        Err("admin.listen must be a loopback address until admin TLS is available")
    }
}

/// A token without space or control characters.
pub open spec fn usable_token(token: Seq<char>) -> bool {
    &&& token.len() > 0
    &&& byte_len(token) <= MAX_TOKEN_BYTES
    &&& forall|i: int| 0 <= i < token.len() ==> (#[trigger] token[i]) as u32 > 0x20
}

/// Checks the operators' token.
pub fn validate_token(token: &str) -> (r: Result<(), &'static str>)
    ensures
        r is Ok <==> usable_token(token@),
        r is Err ==> r->Err_0@ == "admin token must be 1-4096 bytes without whitespace"@,
{
    let chars = to_chars(token);
    if chars.len() == 0 || str_len(token) > MAX_TOKEN_BYTES {
        return Err("admin token must be 1-4096 bytes without whitespace");
    }
    let mut i: usize = 0;
    while i < chars.len()
        invariant
            i <= chars.len(),
            chars@ == token@,
            forall|k: int| 0 <= k < i ==> (#[trigger] token@[k]) as u32 > 0x20,
        decreases chars.len() - i,
    {
        if chars[i] as u32 <= 0x20 {
            assert(!(token@[i as int] as u32 > 0x20));
            return Err("admin token must be 1-4096 bytes without whitespace");
        }
        i = i + 1;
    }
    Ok(())
}

/// Whether a header carries the token behind the word for it.
pub fn bears_token(header: &str, token: &str) -> (r: bool)
    ensures
        r == (header@ == "Bearer "@ + token@),
{
    let chars = to_chars(header);
    match strip_prefix(&chars, "Bearer ") {
        Some(rest) => {
            let wanted = to_chars(token);
            let r = same(&rest, &wanted);
            proof {
                let prefix = "Bearer "@;
                assert(header@ =~= prefix + rest@);
                if header@ == prefix + token@ {
                    assert(rest@ =~= header@.skip(prefix.len() as int));
                    assert(token@ =~= (prefix + token@).skip(prefix.len() as int));
                }
            }
            r
        },
        None => {
            proof {
                let prefix = "Bearer "@;
                if header@ == prefix + token@ {
                    assert(header@.take(prefix.len() as int) =~= prefix);
                }
            }
            false
        },
    }
}

// ---- which request -------------------------------------------------------------------

/// What is asked for.
#[derive(Clone, Copy, Debug, PartialEq, Eq, Structural)]
pub enum Route {
    Page,
    Health,
    Status,
    Rules,
    Profiles,
    ClientGroups,
    Logs,
    ReloadPolicyBundle,
    ReloadProfiles,
    ClearCache,
    ClearLogs,
    ReloadBlocklists,
    ReloadCountry,
    ReloadPolicy,
    AddPolicy,
    RemovePolicy,
    ReloadRegex,
}

/// The path of a route.
pub open spec fn route_path(route: Route) -> Seq<char> {
    match route {
        Route::Page => "/"@,
        Route::Health => "/health"@,
        Route::Status => "/status"@,
        Route::Rules => "/rules"@,
        Route::Profiles => "/profiles"@,
        Route::ClientGroups => "/client-groups"@,
        Route::Logs => "/logs"@,
        Route::ReloadPolicyBundle => "/reload/policy-bundle"@,
        Route::ReloadProfiles => "/reload/profiles"@,
        Route::ClearCache => "/cache/clear"@,
        Route::ClearLogs => "/logs/clear"@,
        Route::ReloadBlocklists => "/reload/blocklists"@,
        Route::ReloadCountry => "/reload/country"@,
        Route::ReloadPolicy => "/reload/policy"@,
        Route::AddPolicy => "/reload/policy/add"@,
        Route::RemovePolicy => "/reload/policy/remove"@,
        Route::ReloadRegex => "/reload/regex"@,
    }
}

/// Whether a route only shows something.
pub open spec fn shows(route: Route) -> bool {
    match route {
        Route::Page | Route::Health | Route::Status | Route::Rules | Route::Profiles
        | Route::ClientGroups | Route::Logs => true,
        _ => false,
    }
}

pub open spec fn route_method(route: Route) -> Seq<char> {
    if shows(route) {
        "GET"@
    } else {
        "POST"@
    }
}

/// Whether a route needs a body.
pub open spec fn takes_body(route: Route) -> bool {
    match route {
        Route::ReloadPolicyBundle | Route::ReloadProfiles | Route::ReloadPolicy | Route::AddPolicy
        | Route::RemovePolicy | Route::ReloadRegex => true,
        _ => false,
    }
}

/// The paths are all different.
proof fn paths_are_distinct(a: Route, b: Route)
    requires
        route_path(a) == route_path(b),
    ensures
        a == b,
{
    reveal_strlit("/");
    reveal_strlit("/health");
    reveal_strlit("/status");
    reveal_strlit("/rules");
    reveal_strlit("/profiles");
    reveal_strlit("/client-groups");
    reveal_strlit("/logs");
    reveal_strlit("/reload/policy-bundle");
    reveal_strlit("/reload/profiles");
    reveal_strlit("/cache/clear");
    reveal_strlit("/logs/clear");
    reveal_strlit("/reload/blocklists");
    reveal_strlit("/reload/country");
    reveal_strlit("/reload/policy");
    reveal_strlit("/reload/policy/add");
    reveal_strlit("/reload/policy/remove");
    reveal_strlit("/reload/regex");
    let x = route_path(a);
    let y = route_path(b);
    assert(x.len() == y.len());
    assert(x.len() > 1 ==> x[1] == y[1]);
    assert(x.len() > 8 ==> x[8] == y[8]);
    assert(x.len() > 14 ==> x[14] == y[14]);
}

fn find_route(path: &[char]) -> (r: Option<Route>)
    ensures
        r is Some ==> route_path(r->0) == path@,
        r is None ==> forall|route: Route| route_path(route) != path@,
{
    if is_text(path, "/") {
        Some(Route::Page)
    } else if is_text(path, "/health") {
        Some(Route::Health)
    } else if is_text(path, "/status") {
        Some(Route::Status)
    } else if is_text(path, "/rules") {
        Some(Route::Rules)
    } else if is_text(path, "/profiles") {
        Some(Route::Profiles)
    } else if is_text(path, "/client-groups") {
        Some(Route::ClientGroups)
    } else if is_text(path, "/logs") {
        Some(Route::Logs)
    } else if is_text(path, "/reload/policy-bundle") {
        Some(Route::ReloadPolicyBundle)
    } else if is_text(path, "/reload/profiles") {
        Some(Route::ReloadProfiles)
    } else if is_text(path, "/cache/clear") {
        Some(Route::ClearCache)
    } else if is_text(path, "/logs/clear") {
        Some(Route::ClearLogs)
    } else if is_text(path, "/reload/blocklists") {
        Some(Route::ReloadBlocklists)
    } else if is_text(path, "/reload/country") {
        Some(Route::ReloadCountry)
    } else if is_text(path, "/reload/policy") {
        Some(Route::ReloadPolicy)
    } else if is_text(path, "/reload/policy/add") {
        Some(Route::AddPolicy)
    } else if is_text(path, "/reload/policy/remove") {
        Some(Route::RemovePolicy)
    } else if is_text(path, "/reload/regex") {
        Some(Route::ReloadRegex)
    } else {
        assert forall|route: Route| route_path(route) != path@ by {
            match route {
                _ => {},
            }
        }
        None
    }
}

/// What a request asks for; a known path with another method is refused with one status, and an
/// unknown path with another.
pub fn route(method: &str, path: &str) -> (r: Result<Route, u16>)
    ensures
        match r {
            Ok(found) => route_path(found) == path@ && route_method(found) == method@,
            Err(status) => {
                if exists|known: Route| route_path(known) == path@ {
                    &&& status == 405
                    &&& forall|known: Route|
                        route_path(known) == path@ ==> route_method(known) != method@
                } else {
                    status == 404
                }
            },
        },
{
    let chars = to_chars(path);
    match find_route(&chars) {
        None => Err(404),
        Some(found) => {
            let verb = to_chars(method);
            let reads = match found {
                Route::Page | Route::Health | Route::Status | Route::Rules | Route::Profiles
                | Route::ClientGroups | Route::Logs => true,
                _ => false,
            };
            let fits = if reads {
                is_text(&verb, "GET")
            } else {
                is_text(&verb, "POST")
            };
            proof {
                assert forall|known: Route| route_path(known) == path@ implies known == found by {
                    paths_are_distinct(known, found);
                }
            }
            if fits {
                Ok(found)
            } else {
                Err(405)
            }
        },
    }
}

/// Whether the body of a request is too long to be read.
pub fn body_too_long(route: Route, bytes: usize) -> (r: bool)
    ensures
        r == (takes_body(route) && bytes > MAX_POLICY_BODY_BYTES),
{
    let reads = match route {
        Route::ReloadPolicyBundle | Route::ReloadProfiles | Route::ReloadPolicy | Route::AddPolicy
        | Route::RemovePolicy | Route::ReloadRegex => true,
        _ => false,
    };
    reads && bytes > MAX_POLICY_BODY_BYTES
}

// ---- changes -------------------------------------------------------------------------

/// A whole policy as operators send it.
pub struct BundleBody {
    pub rules: Vec<RuleConfig>,
    pub regex_rules: Vec<RegexRuleConfig>,
    pub profiles: Vec<ServiceProfileConfig>,
    pub client_groups: Vec<ClientGroupConfig>,
    pub rewrites: Vec<RewriteConfig>,
    pub country_policy: CountryPolicyConfig,
}

/// A change that operators ask for, with what its body says.
pub enum AdminCommand {
    ClearCache,
    ClearLogs,
    ReloadBlocklists,
    ReloadCountry,
    ReloadPolicy(Vec<RuleConfig>),
    AddPolicy(Vec<RuleConfig>),
    RemovePolicy(Vec<u32>),
    ReloadRegex(Vec<RegexRuleConfig>),
    ReloadProfiles(Vec<ServiceProfileConfig>, Vec<ClientGroupConfig>),
    ReloadPolicyBundle(BundleBody),
}

/// What a change is answered with.
pub enum AdminReply {
    /// How many entries were cleared.
    Cleared { status: u16, entries: usize },
    /// What was done.
    Done { status: u16, word: &'static str },
    /// Why it was refused.
    Refused { status: u16, error: PolicyError },
    /// Why it was refused before it was tried.
    Unusable { status: u16, message: &'static str },
}

/// The bundle that operators send: what it does not carry stays, but for the identities.
pub open spec fn body_bundle(body: BundleBody) -> BundleView {
    BundleView {
        rules: rule_views(body.rules@),
        regex_rules: regex_views(body.regex_rules@),
        profiles: profile_views(body.profiles@),
        client_groups: group_views(body.client_groups@),
        client_identities: Seq::empty(),
        rewrites: rewrite_views(body.rewrites@),
        country: body.country_policy@,
        paths: None,
        keep_lists: true,
        mode: None,
        domains: None,
        default_action: None,
        filtering_enabled: None,
        disabled: None,
        admission: None,
    }
}

/// The change of the tables that a command stands for; none where it leaves them alone or is not
/// tried.
pub open spec fn command_change(
    command: AdminCommand,
    tables: TablesView,
    files: Seq<SourceView>,
    source: CountrySource,
    inflight: usize,
) -> Option<Change> {
    match command {
        AdminCommand::ClearCache => None,
        AdminCommand::ClearLogs => None,
        AdminCommand::ReloadBlocklists => Some(lists_reloaded(tables, files)),
        AdminCommand::ReloadCountry => Some(country_reloaded(tables, source)),
        AdminCommand::ReloadPolicy(rules) => if rules@.len() == 0 {
            None
        } else {
            Some(rules_replaced(tables, rule_views(rules@)))
        },
        AdminCommand::AddPolicy(rules) => if rules@.len() == 0 {
            None
        } else {
            Some(rules_replaced(tables, tables.explicit_rules + rule_views(rules@)))
        },
        AdminCommand::RemovePolicy(ids) => Some(rules_removed(tables, ids@)),
        AdminCommand::ReloadRegex(rules) => Some(regex_replaced(tables, regex_views(rules@))),
        AdminCommand::ReloadProfiles(profiles, groups) => Some(
            profiles_replaced(tables, profile_views(profiles@), group_views(groups@)),
        ),
        AdminCommand::ReloadPolicyBundle(body) => Some(
            bundle_replaced(tables, body_bundle(body), files, source, inflight),
        ),
    }
}

/// The word for a change that was made.
pub open spec fn done_word(command: AdminCommand) -> Seq<char> {
    match command {
        AdminCommand::RemovePolicy(_) => "removed"@,
        _ => "reloaded"@,
    }
}

/// The status of a change that was refused: one that fails for what the server reads by itself
/// is the server's fault.
pub open spec fn refused_status(command: AdminCommand) -> u16 {
    match command {
        AdminCommand::ReloadBlocklists => 500,
        _ => 422,
    }
}

/// A reply tells what came of the change.
pub open spec fn tells(reply: AdminReply, command: AdminCommand, change: Change) -> bool {
    match change {
        Ok(_) => reply matches AdminReply::Done { status, word } && status == 200 && word@
            == done_word(command),
        Err(error) => reply matches AdminReply::Refused { status, error: told } && status
            == refused_status(command) && told@ == error,
    }
}

fn told(result: Result<ReloadState, PolicyError>, word: &'static str, refused: u16) -> (r: AdminReply)
    ensures
        match result {
            Ok(_) => r matches AdminReply::Done { status, word: said } && status == 200 && said
                == word,
            Err(error) => r matches AdminReply::Refused { status, error: why } && status == refused
                && why == error,
        },
{
    match result {
        Ok(_) => AdminReply::Done { status: 200, word },
        Err(error) => AdminReply::Refused { status: refused, error },
    }
}

/// The tables behind a change.
pub open spec fn after_change(change: Change, tables: TablesView) -> TablesView {
    match change {
        Ok((_, next)) => next,
        Err(_) => tables,
    }
}

impl Policy {
    /// Performs a change that operators ask for.
    pub fn perform(&mut self, command: AdminCommand, files: &[BlocklistSource], source: &CountrySource) -> (r:
        AdminReply)
        requires
            old(self).wf(),
        ensures
            final(self).wf(),
            final(self).config == old(self).config,
            final(self).traffic == old(self).traffic,
            final(self).decision_counts == old(self).decision_counts,
            match command_change(
                command,
                old(self).tables@,
                source_views(files@),
                *source,
                old(self).config.admission.max_inflight_requests,
            ) {
                Some(change) => {
                    &&& tells(r, command, change)
                    &&& final(self).tables@ == after_change(change, old(self).tables@)
                    &&& final(self).query_log == old(self).query_log
                },
                None => match command {
                    AdminCommand::ClearCache => {
                        &&& r matches AdminReply::Cleared { status, entries }
                        &&& status == 200
                        &&& entries == old(self).tables@.cache.len()
                        &&& final(self).tables@ == (TablesView {
                            cache: Seq::empty(),
                            ..old(self).tables@
                        })
                        &&& final(self).query_log == old(self).query_log
                    },
                    AdminCommand::ClearLogs => {
                        &&& r matches AdminReply::Cleared { status, entries }
                        &&& status == 200
                        &&& entries == (match old(self).query_log {
                            Some(log) => log@.len(),
                            None => 0,
                        })
                        &&& final(self).tables == old(self).tables
                        &&& match old(self).query_log {
                            Some(log) => {
                                &&& final(self).query_log is Some
                                &&& final(self).query_log->0@ == Seq::<LogEvent>::empty()
                                &&& final(self).query_log->0.max_entries == log.max_entries
                                &&& final(self).query_log->0.retention_ms == log.retention_ms
                            },
                            None => final(self).query_log is None,
                        }
                    },
                    _ => {
                        &&& r matches AdminReply::Unusable { status, message }
                        &&& status == 422
                        &&& message@ == "policy must contain at least one rule"@
                        &&& final(self).tables == old(self).tables
                        &&& final(self).query_log == old(self).query_log
                    },
                },
            },
    {
        match command {
            AdminCommand::ClearCache => {
                let entries: usize = self.clear_cache();
                AdminReply::Cleared { status: 200, entries }
            },
            AdminCommand::ClearLogs => {
                let entries: usize = self.clear_query_log();
                AdminReply::Cleared { status: 200, entries }
            },
            AdminCommand::ReloadBlocklists => told(self.reload_blocklists(files), "reloaded", 500),
            AdminCommand::ReloadCountry => told(self.reload_country_policy(source), "reloaded", 422),
            AdminCommand::ReloadPolicy(rules) => {
                if rules.len() == 0 {
                    return AdminReply::Unusable {
                        status: 422,
                        message: "policy must contain at least one rule",
                    };
                }
                told(self.reload_rules(&rules), "reloaded", 422)
            },
            AdminCommand::AddPolicy(rules) => {
                if rules.len() == 0 {
                    return AdminReply::Unusable {
                        status: 422,
                        message: "policy must contain at least one rule",
                    };
                }
                told(self.append_rules(&rules), "reloaded", 422)
            },
            AdminCommand::RemovePolicy(ids) => told(self.remove_rules(&ids), "removed", 422),
            AdminCommand::ReloadRegex(rules) => told(
                self.reload_regex_rules(&rules),
                "reloaded",
                422,
            ),
            AdminCommand::ReloadProfiles(profiles, groups) => told(
                self.reload_profiles(&profiles, &groups),
                "reloaded",
                422,
            ),
            AdminCommand::ReloadPolicyBundle(body) => {
                let result = self.reload_policy_bundle(
                    &body.rules,
                    &body.regex_rules,
                    &body.profiles,
                    &body.client_groups,
                    &body.rewrites,
                    &body.country_policy,
                    None,
                    files,
                    source,
                );
                told(result, "reloaded", 422)
            },
        }
    }
}

// ---- laws ----------------------------------------------------------------------------

/// A change that is refused leaves the tables as they were, and is answered with an error status.
pub proof fn refused_changes_change_nothing(command: AdminCommand, change: Change, tables: TablesView)
    requires
        change is Err,
    ensures
        after_change(change, tables) == tables,
        refused_status(command) >= 400,
{
}

/// Operators are listened to on the addresses of the local host and on no other.
pub proof fn only_the_local_host_is_listened_to(v4: u32, v6: u128)
    ensures
        loopback(IpAddr::V4(v4)) <==> 0x7f00_0000 <= v4 <= 0x7fff_ffff,
        loopback(IpAddr::V6(v6)) <==> v6 == 1,
{
}

/// A token has one character at least and no space or control character, and is bounded.
pub proof fn tokens_hold_no_space(token: Seq<char>, i: int)
    ensures
        usable_token(token) ==> 1 <= token.len() && byte_len(token) <= 4_096,
        usable_token(token) && 0 <= i < token.len() ==> token[i] != ' ' && token[i] != '\t'
            && token[i] != '\n' && token[i] != '\r' && token[i] as u32 >= 0x21,
        token.len() > 0 && byte_len(token) <= 4_096 && (forall|k: int|
            0 <= k < token.len() ==> (#[trigger] token[k]) as u32 >= 0x21) ==> usable_token(token),
{
}

/// What shows something is asked for with one method and what changes something with another; a
/// change is read from a body where it needs more than its name.
pub proof fn changes_are_posted(route: Route)
    ensures
        route is Page || route is Health || route is Status || route is Rules || route is Profiles
            || route is ClientGroups || route is Logs <==> route_method(route) == seq!['G', 'E', 'T'],
        takes_body(route) ==> route_method(route) == seq!['P', 'O', 'S', 'T'],
        !takes_body(route) && route_method(route) == seq!['P', 'O', 'S', 'T'] <==> route
            is ClearCache || route is ClearLogs || route is ReloadBlocklists || route
            is ReloadCountry,
{
    reveal_strlit("GET");
    reveal_strlit("POST");
    assert("GET"@ =~= seq!['G', 'E', 'T']);
    assert("POST"@ =~= seq!['P', 'O', 'S', 'T']);
    assert(seq!['G', 'E', 'T'].len() == 3 && seq!['P', 'O', 'S', 'T'].len() == 4);
}

/// A change of the rules that operators ask for does what it says: rules that replace the others are
/// the explicit ones then, rules that are added stand behind them, and rules that are removed are
/// gone. A change without a rule is not tried.
pub proof fn rule_commands_do_what_they_say(
    tables: TablesView,
    files: Seq<SourceView>,
    source: CountrySource,
    inflight: usize,
    rules: Vec<RuleConfig>,
    ids: Vec<u32>,
    i: int,
)
    requires
        compiled_from(tables),
    ensures
        rules@.len() == 0 ==> command_change(
            AdminCommand::ReloadPolicy(rules),
            tables,
            files,
            source,
            inflight,
        ) is None && command_change(
            AdminCommand::AddPolicy(rules),
            tables,
            files,
            source,
            inflight,
        ) is None,
        rules@.len() > 0 ==> {
            &&& command_change(
                AdminCommand::ReloadPolicy(rules),
                tables,
                files,
                source,
                inflight,
            ) matches Some(change) && (change matches Ok((_, next)) ==> next.explicit_rules
                == rule_views(rules@))
        },
        rules@.len() > 0 ==> {
            &&& command_change(
                AdminCommand::AddPolicy(rules),
                tables,
                files,
                source,
                inflight,
            ) matches Some(change) && (change matches Ok((_, next)) ==> next.explicit_rules
                == tables.explicit_rules + rule_views(rules@))
        },
        command_change(
            AdminCommand::RemovePolicy(ids),
            tables,
            files,
            source,
            inflight,
        ) matches Some(change) && (change matches Ok((_, next)) ==> (0 <= i
            < next.explicit_rules.len() ==> !ids@.contains(next.explicit_rules[i].id))
            && next.explicit_rules.len() < tables.explicit_rules.len()),
{
    if rules_replaced(tables, rule_views(rules@)) is Ok {
        replaced_rules_are_in_force(tables, rule_views(rules@));
    }
    if rules_replaced(tables, tables.explicit_rules + rule_views(rules@)) is Ok {
        replaced_rules_are_in_force(tables, tables.explicit_rules + rule_views(rules@));
    }
    removed_rules_are_gone(tables, ids@, i);
}

/// The other changes do what they say: lists and the country map are read again from their sources,
/// rules with expressions and profiles are the given ones then, and a bundle that is sent is in
/// force, with no identities and with the loaded filter rules. Clearing changes no table.
pub proof fn other_commands_do_what_they_say(
    tables: TablesView,
    files: Seq<SourceView>,
    source: CountrySource,
    inflight: usize,
    expressions: Vec<RegexRuleConfig>,
    profiles: Vec<ServiceProfileConfig>,
    groups: Vec<ClientGroupConfig>,
    body: BundleBody,
)
    requires
        compiled_from(tables),
    ensures
        command_change(AdminCommand::ClearCache, tables, files, source, inflight) is None,
        command_change(AdminCommand::ClearLogs, tables, files, source, inflight) is None,
        command_change(
            AdminCommand::ReloadBlocklists,
            tables,
            files,
            source,
            inflight,
        ) matches Some(change) && (change matches Ok((_, next)) ==> lists_are_read(next, files)),
        command_change(
            AdminCommand::ReloadCountry,
            tables,
            files,
            source,
            inflight,
        ) matches Some(change) && (change matches Ok((_, next)) ==> loaded(
            tables.country_config,
            source,
        ) == Ok::<Option<CountryPolicyView>, ErrorView>(next.country)),
        command_change(
            AdminCommand::ReloadRegex(expressions),
            tables,
            files,
            source,
            inflight,
        ) == Some(regex_replaced(tables, regex_views(expressions@))),
        command_change(
            AdminCommand::ReloadProfiles(profiles, groups),
            tables,
            files,
            source,
            inflight,
        ) matches Some(change) && (change matches Ok((_, next)) ==> next.profiles == profile_views(
            profiles@,
        ) && next.client_groups == group_views(groups@)),
        command_change(
            AdminCommand::ReloadPolicyBundle(body),
            tables,
            files,
            source,
            inflight,
        ) matches Some(change) && (change matches Ok((_, next)) ==> {
            &&& next.explicit_rules == rule_views(body.rules@)
            &&& next.profiles == profile_views(body.profiles@)
            &&& next.client_groups == group_views(body.client_groups@)
            &&& next.rewrite_configs == rewrite_views(body.rewrites@)
            &&& next.country_config == body.country_policy@
            &&& next.client_identities.len() == 0
            &&& next.blocklist_rules == tables.blocklist_rules
            &&& next.blocklist_paths == tables.blocklist_paths
            &&& next.legacy_mode == tables.legacy_mode
            &&& next.filtering_enabled == tables.filtering_enabled
            &&& next.admission == tables.admission
        }),
{
    rules_come_from_the_enabled_sources(tables, files, Seq::empty());
    read_maps_are_in_force(tables, tables.country_config, source);
    published_profiles_are_in_force(tables, profile_views(profiles@), group_views(groups@));
    if bundle_replaced(tables, body_bundle(body), files, source, inflight) is Ok {
        accepted_bundles_are_in_force(tables, body_bundle(body), files, source, inflight);
        kept_lists_are_retained(tables, body_bundle(body), files, source, inflight);
    }
}

/// A change that was made is answered with success, and one that was refused with why: as the
/// server's fault where its lists cannot be read, and as the request's otherwise.
pub proof fn replies_tell_the_outcome(command: AdminCommand, change: Change, reply: AdminReply)
    requires
        tells(reply, command, change),
    ensures
        change is Ok ==> (reply matches AdminReply::Done { status, .. } && status == 200),
        change is Err ==> (reply matches AdminReply::Refused { status, error } && error@
            == change->Err_0 && status == (if command is ReloadBlocklists {
            500u16
        } else {
            422
        })),
{
}

} // verus!
