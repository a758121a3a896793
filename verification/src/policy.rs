//! The authoritative domain rules: their configuration, their meaning, and the decision
//! that a set of rules takes on a query.
use vstd::prelude::*;

use crate::items::{item_views, Item};
use crate::lists::{copy_list, copy_option, copy_texts, has_u16, same_option, same_texts, same_u16s,
    text_of};
use crate::names::{below, is_below, is_listed_name, listed_name, normal, normalize_chars};
use crate::net::{in_network, network, IpAddr, IpNetwork};
use crate::text::{decimal, ending_in_number, has_prefix, joined, same, same_str, strip_prefix, texts,
    to_chars, with_number};

verus! {

/// The most rules that one policy may hold.
pub const MAX_RULES: usize = 65_536;

/// The most networks that one rule may be scoped to.
pub const MAX_CLIENT_CIDRS: usize = 256;

/// The longest identity label, in bytes.
pub const MAX_CLIENT_IDENTITY_BYTES: usize = 128;

/// What is done with a query.
#[derive(Clone, Copy, Debug, PartialEq, Eq, Structural)]
pub enum Action {
    Pass,
    Ignore,
    Drop,
    Reject,
    Nxdomain,
    Sink,
    Honeypot,
    Forward,
    Observe,
}

/// One domain rule as it is configured.
#[derive(Clone, Debug, PartialEq, Eq)]
pub struct RuleConfig {
    pub enabled: bool,
    pub id: u32,
    /// A name, or `*.` and a name for everything below it.
    pub domain: String,
    pub action: Action,
    pub priority: i32,
    pub qtype: Option<u16>,
    pub qtypes: Vec<u16>,
    pub qclass: Option<u16>,
    pub qclasses: Vec<u16>,
    pub client: Option<IpAddr>,
    pub client_cidr: Option<String>,
    pub client_cidrs: Vec<String>,
    pub client_identity: Option<String>,
}

/// The value of a rule's configuration.
pub struct RuleView {
    pub enabled: bool,
    pub id: u32,
    pub domain: Seq<char>,
    pub action: Action,
    pub priority: i32,
    pub qtype: Option<u16>,
    pub qtypes: Seq<u16>,
    pub qclass: Option<u16>,
    pub qclasses: Seq<u16>,
    pub client: Option<IpAddr>,
    pub client_cidr: Option<Seq<char>>,
    pub client_cidrs: Seq<Seq<char>>,
    pub client_identity: Option<Seq<char>>,
}

impl View for RuleConfig {
    type V = RuleView;

    open spec fn view(&self) -> RuleView {
        RuleView {
            enabled: self.enabled,
            id: self.id,
            domain: self.domain@,
            action: self.action,
            priority: self.priority,
            qtype: self.qtype,
            qtypes: self.qtypes@,
            qclass: self.qclass,
            qclasses: self.qclasses@,
            client: self.client,
            client_cidr: text_of(self.client_cidr),
            client_cidrs: texts(self.client_cidrs@),
            client_identity: text_of(self.client_identity),
        }
    }
}

/// The values of a list of rules.
pub open spec fn rule_views(rules: Seq<RuleConfig>) -> Seq<RuleView> {
    item_views(rules)
}

impl RuleConfig {
    /// A rule with the same value.
    pub fn copied(&self) -> (r: RuleConfig)
        ensures
            r@ == self@,
    {
        RuleConfig {
            enabled: self.enabled,
            id: self.id,
            domain: self.domain.clone(),
            action: self.action,
            priority: self.priority,
            qtype: self.qtype,
            qtypes: copy_list(&self.qtypes),
            qclass: self.qclass,
            qclasses: copy_list(&self.qclasses),
            client: self.client,
            client_cidr: copy_option(&self.client_cidr),
            client_cidrs: copy_texts(&self.client_cidrs),
            client_identity: copy_option(&self.client_identity),
        }
    }

    /// Whether two rules have the same value.
    pub fn same_as(&self, other: &RuleConfig) -> (r: bool)
        ensures
            r == (self@ == other@),
    {
        self.enabled == other.enabled && self.id == other.id && same_str(
            self.domain.as_str(),
            other.domain.as_str(),
        ) && self.action == other.action && self.priority == other.priority && self.qtype
            == other.qtype && same_u16s(&self.qtypes, &other.qtypes) && self.qclass
            == other.qclass && same_u16s(&self.qclasses, &other.qclasses) && self.client
            == other.client && same_option(&self.client_cidr, &other.client_cidr) && same_texts(
            &self.client_cidrs,
            &other.client_cidrs,
        ) && same_option(&self.client_identity, &other.client_identity)
    }
}

impl Item for RuleConfig {
    type Key = u32;

    open spec fn key(value: RuleView) -> u32 {
        value.id
    }

    fn duplicate(&self) -> (r: RuleConfig) {
        self.copied()
    }

    fn equal(&self, other: &RuleConfig) -> (r: bool) {
        self.same_as(other)
    }

    fn same_key(&self, other: &RuleConfig) -> (r: bool) {
        self.id == other.id
    }
}

// ---- errors --------------------------------------------------------------------------

/// Why a configuration is refused.
#[derive(Clone, Debug, PartialEq, Eq)]
pub enum PolicyError {
    TooManyRules { max: usize },
    DuplicateRule { id: u32 },
    InvalidDomain { id: u32, domain: String },
    InvalidSelector { id: u32, field: String },
    InvalidClientCidr { id: u32, value: String },
    InvalidClientIdentity { id: u32 },
    InvalidBlocklist { path: String, reason: String },
    InvalidCountryMap { path: String, reason: String },
    InvalidProfile { name: String, reason: String },
    InvalidRewrite { name: String, reason: String },
    TooManyRegexRules { max: usize },
    InvalidRegex { id: u32, reason: String },
    InvalidCache { reason: String },
    InvalidAdmission { reason: String },
    InvalidConfigReload { reason: String },
    InvalidUpstream { reason: String },
    InvalidDhcp { reason: String },
    InvalidClientIdentityMap { name: String, reason: String },
}

/// The value of an error.
pub enum ErrorView {
    TooManyRules { max: usize },
    DuplicateRule { id: u32 },
    InvalidDomain { id: u32, domain: Seq<char> },
    InvalidSelector { id: u32, field: Seq<char> },
    InvalidClientCidr { id: u32, value: Seq<char> },
    InvalidClientIdentity { id: u32 },
    InvalidBlocklist { path: Seq<char>, reason: Seq<char> },
    InvalidCountryMap { path: Seq<char>, reason: Seq<char> },
    InvalidProfile { name: Seq<char>, reason: Seq<char> },
    InvalidRewrite { name: Seq<char>, reason: Seq<char> },
    TooManyRegexRules { max: usize },
    InvalidRegex { id: u32, reason: Seq<char> },
    InvalidCache { reason: Seq<char> },
    InvalidAdmission { reason: Seq<char> },
    InvalidConfigReload { reason: Seq<char> },
    InvalidUpstream { reason: Seq<char> },
    InvalidDhcp { reason: Seq<char> },
    InvalidClientIdentityMap { name: Seq<char>, reason: Seq<char> },
}

impl View for PolicyError {
    type V = ErrorView;

    open spec fn view(&self) -> ErrorView {
        match *self {
            PolicyError::TooManyRules { max } => ErrorView::TooManyRules { max },
            PolicyError::DuplicateRule { id } => ErrorView::DuplicateRule { id },
            PolicyError::InvalidDomain { id, domain } => ErrorView::InvalidDomain {
                id,
                domain: domain@,
            },
            PolicyError::InvalidSelector { id, field } => ErrorView::InvalidSelector {
                id,
                field: field@,
            },
            PolicyError::InvalidClientCidr { id, value } => ErrorView::InvalidClientCidr {
                id,
                value: value@,
            },
            PolicyError::InvalidClientIdentity { id } => ErrorView::InvalidClientIdentity { id },
            PolicyError::InvalidBlocklist { path, reason } => ErrorView::InvalidBlocklist {
                path: path@,
                reason: reason@,
            },
            PolicyError::InvalidCountryMap { path, reason } => ErrorView::InvalidCountryMap {
                path: path@,
                reason: reason@,
            },
            PolicyError::InvalidProfile { name, reason } => ErrorView::InvalidProfile {
                name: name@,
                reason: reason@,
            },
            PolicyError::InvalidRewrite { name, reason } => ErrorView::InvalidRewrite {
                name: name@,
                reason: reason@,
            },
            PolicyError::TooManyRegexRules { max } => ErrorView::TooManyRegexRules { max },
            PolicyError::InvalidRegex { id, reason } => ErrorView::InvalidRegex {
                id,
                reason: reason@,
            },
            PolicyError::InvalidCache { reason } => ErrorView::InvalidCache { reason: reason@ },
            PolicyError::InvalidAdmission { reason } => ErrorView::InvalidAdmission {
                reason: reason@,
            },
            PolicyError::InvalidConfigReload { reason } => ErrorView::InvalidConfigReload {
                reason: reason@,
            },
            PolicyError::InvalidUpstream { reason } => ErrorView::InvalidUpstream {
                reason: reason@,
            },
            PolicyError::InvalidDhcp { reason } => ErrorView::InvalidDhcp { reason: reason@ },
            PolicyError::InvalidClientIdentityMap {
                name,
                reason,
            } => ErrorView::InvalidClientIdentityMap { name: name@, reason: reason@ },
        }
    }
}

/// An error in words.
pub open spec fn error_message(error: ErrorView) -> Seq<char> {
    match error {
        ErrorView::TooManyRules { max } => "rule count exceeds "@ + decimal(max as nat),
        ErrorView::DuplicateRule { id } => "duplicate rule id "@ + decimal(id as nat),
        ErrorView::InvalidDomain { id, domain } => "rule "@ + decimal(id as nat)
            + ": invalid domain "@ + domain,
        ErrorView::InvalidSelector { id, field } => "rule "@ + decimal(id as nat) + ": ambiguous "@
            + field,
        ErrorView::InvalidClientCidr { id, value } => "rule "@ + decimal(id as nat)
            + ": invalid client CIDR "@ + value,
        ErrorView::InvalidClientIdentity { id } => "rule "@ + decimal(id as nat)
            + ": invalid client identity"@,
        ErrorView::InvalidBlocklist { path, reason } => "blocklist "@ + path + ": "@ + reason,
        ErrorView::InvalidCountryMap { path, reason } => "country map "@ + path + ": "@ + reason,
        ErrorView::InvalidProfile { name, reason } => "profile "@ + name + ": "@ + reason,
        ErrorView::InvalidRewrite { name, reason } => "rewrite "@ + name + ": "@ + reason,
        ErrorView::TooManyRegexRules { max } => "regex rule count exceeds "@ + decimal(max as nat),
        ErrorView::InvalidRegex { id, reason } => "regex rule "@ + decimal(id as nat) + ": "@
            + reason,
        ErrorView::InvalidCache { reason } => "cache: "@ + reason,
        ErrorView::InvalidAdmission { reason } => "admission: "@ + reason,
        ErrorView::InvalidConfigReload { reason } => "configuration reload: "@ + reason,
        ErrorView::InvalidUpstream { reason } => "upstream: "@ + reason,
        ErrorView::InvalidDhcp { reason } => "dhcp: "@ + reason,
        ErrorView::InvalidClientIdentityMap { name, reason } => "client identity "@ + name + ": "@
            + reason,
    }
}

// A reason, behind a number.
fn numbered(before: &str, n: u32, after: &str, reason: &str) -> (r: String)
    ensures
        r@ == before@ + decimal(n as nat) + after@ + reason@,
{
    let head = with_number(before, n as u64, after);
    joined(head.as_str(), reason)
}

// A reason, behind a name.
fn named(before: &str, name: &str, reason: &str) -> (r: String)
    ensures
        r@ == before@ + name@ + ": "@ + reason@,
{
    let place = joined(before, name);
    let head = joined(place.as_str(), ": ");
    joined(head.as_str(), reason)
}

impl PolicyError {
    /// The error in words.
    pub fn message(&self) -> (r: String)
        ensures
            r@ == error_message(self@),
    {
        match self {
            PolicyError::TooManyRules { max } => ending_in_number(
                "rule count exceeds ",
                *max as u64,
            ),
            PolicyError::DuplicateRule { id } => ending_in_number("duplicate rule id ", *id as u64),
            PolicyError::InvalidDomain { id, domain } => numbered(
                "rule ",
                *id,
                ": invalid domain ",
                domain.as_str(),
            ),
            PolicyError::InvalidSelector { id, field } => numbered(
                "rule ",
                *id,
                ": ambiguous ",
                field.as_str(),
            ),
            PolicyError::InvalidClientCidr { id, value } => numbered(
                "rule ",
                *id,
                ": invalid client CIDR ",
                value.as_str(),
            ),
            PolicyError::InvalidClientIdentity { id } => with_number(
                "rule ",
                *id as u64,
                ": invalid client identity",
            ),
            PolicyError::InvalidBlocklist { path, reason } => named(
                "blocklist ",
                path.as_str(),
                reason.as_str(),
            ),
            PolicyError::InvalidCountryMap { path, reason } => named(
                "country map ",
                path.as_str(),
                reason.as_str(),
            ),
            PolicyError::InvalidProfile { name, reason } => named(
                "profile ",
                name.as_str(),
                reason.as_str(),
            ),
            PolicyError::InvalidRewrite { name, reason } => named(
                "rewrite ",
                name.as_str(),
                reason.as_str(),
            ),
            PolicyError::TooManyRegexRules { max } => ending_in_number(
                "regex rule count exceeds ",
                *max as u64,
            ),
            PolicyError::InvalidRegex { id, reason } => numbered(
                "regex rule ",
                *id,
                ": ",
                reason.as_str(),
            ),
            PolicyError::InvalidCache { reason } => joined("cache: ", reason.as_str()),
            PolicyError::InvalidAdmission { reason } => joined("admission: ", reason.as_str()),
            PolicyError::InvalidConfigReload { reason } => joined(
                "configuration reload: ",
                reason.as_str(),
            ),
            PolicyError::InvalidUpstream { reason } => joined("upstream: ", reason.as_str()),
            PolicyError::InvalidDhcp { reason } => joined("dhcp: ", reason.as_str()),
            PolicyError::InvalidClientIdentityMap { name, reason } => named(
                "client identity ",
                name.as_str(),
                reason.as_str(),
            ),
        }
    }
}

// ---- the meaning of a rule -----------------------------------------------------------

/// A rule that has been checked: what it matches and what it decides.
pub struct CompiledRule {
    pub enabled: bool,
    pub id: u32,
    pub wildcard: bool,
    pub domain: Vec<char>,
    pub action: Action,
    pub priority: i32,
    pub qtypes: Vec<u16>,
    pub qclasses: Vec<u16>,
    pub client: Option<IpAddr>,
    pub networks: Vec<IpNetwork>,
    pub identity: Option<Vec<char>>,
}

/// The value of a checked rule.
pub struct Meaning {
    pub enabled: bool,
    pub id: u32,
    pub wildcard: bool,
    pub domain: Seq<char>,
    pub action: Action,
    pub priority: i32,
    pub qtypes: Seq<u16>,
    pub qclasses: Seq<u16>,
    pub client: Option<IpAddr>,
    pub networks: Seq<IpNetwork>,
    pub identity: Option<Seq<char>>,
}

impl View for CompiledRule {
    type V = Meaning;

    open spec fn view(&self) -> Meaning {
        Meaning {
            enabled: self.enabled,
            id: self.id,
            wildcard: self.wildcard,
            domain: self.domain@,
            action: self.action,
            priority: self.priority,
            qtypes: self.qtypes@,
            qclasses: self.qclasses@,
            client: self.client,
            networks: self.networks@,
            identity: match self.identity {
                Some(text) => Some(text@),
                None => None,
            },
        }
    }
}

pub open spec fn meanings(rules: Seq<CompiledRule>) -> Seq<Meaning> {
    Seq::new(rules.len(), |i: int| rules[i]@)
}

/// The selectors of a rule: the single one or the list. Both may be given only where they say the
/// same.
pub open spec fn selectors(
    id: u32,
    single: Option<u16>,
    many: Seq<u16>,
    field: Seq<char>,
) -> Result<Seq<u16>, ErrorView> {
    match single {
        Some(value) => if many.len() == 0 || many == seq![value] {
            Ok(seq![value])
        } else {
            Err(ErrorView::InvalidSelector { id, field })
        },
        None => Ok(many),
    }
}

/// Joins the single selector and the list of selectors of a rule; giving both is an error unless
/// they say the same.
pub fn effective_query_selectors(
    id: u32,
    single: Option<u16>,
    many: &[u16],
    field: &str,
) -> (r: Result<Vec<u16>, PolicyError>)
    ensures
        match selectors(id, single, many@, field@) {
            Ok(list) => r is Ok && r->Ok_0@ == list,
            Err(error) => r is Err && r->Err_0@ == error,
        },
{
    match single {
        Some(value) => {
            let same = many.len() == 1 && many[0] == value;
            assert(same == (many@ =~= seq![value]));
            if many.len() == 0 || same {
                let mut out: Vec<u16> = Vec::new();
                out.push(value);
                assert(out@ =~= seq![value]);
                Ok(out)
            } else {
                Err(PolicyError::InvalidSelector { id, field: field.to_owned() })
            }
        },
        None => Ok(copy_list(many)),
    }
}

/// The first text that is no network, as an index; the length where all are networks.
pub open spec fn first_bad_network(list: Seq<Seq<char>>) -> int
    decreases list.len(),
{
    if list.len() == 0 {
        0
    } else {
        let before = first_bad_network(list.drop_last());
        if before < list.len() - 1 {
            before
        } else if network(list.last()) is Some {
            list.len() as int
        } else {
            list.len() - 1
        }
    }
}

pub open spec fn networks_of(list: Seq<Seq<char>>) -> Seq<IpNetwork> {
    Seq::new(list.len(), |i: int| network(list[i])->0)
}

/// The networks of a client scope: not together with an exact client, a bounded number, and
/// each one readable.
pub open spec fn scope_networks(
    id: u32,
    client: Option<IpAddr>,
    list: Seq<Seq<char>>,
) -> Result<Seq<IpNetwork>, ErrorView> {
    if client is Some && list.len() > 0 {
        Err(
            ErrorView::InvalidClientCidr {
                id,
                value: "exact client and client_cidrs are mutually exclusive"@,
            },
        )
    } else if list.len() > MAX_CLIENT_CIDRS {
        Err(
            ErrorView::InvalidClientCidr {
                id,
                value: "more than "@ + decimal(MAX_CLIENT_CIDRS as nat) + " networks"@,
            },
        )
    } else if first_bad_network(list) < list.len() {
        Err(ErrorView::InvalidClientCidr { id, value: list[first_bad_network(list)] })
    } else {
        Ok(networks_of(list))
    }
}

/// Reads the networks of a client scope.
pub fn parse_scope_networks(
    id: u32,
    client: Option<IpAddr>,
    list: &[String],
) -> (r: Result<Vec<IpNetwork>, PolicyError>)
    ensures
        match scope_networks(id, client, texts(list@)) {
            Ok(networks) => r is Ok && r->Ok_0@ == networks,
            Err(error) => r is Err && r->Err_0@ == error,
        },
{
    let ghost all = texts(list@);
    if client.is_some() && list.len() > 0 {
        return Err(
            PolicyError::InvalidClientCidr {
                id,
                value: "exact client and client_cidrs are mutually exclusive".to_owned(),
            },
        );
    }
    if list.len() > MAX_CLIENT_CIDRS {
        return Err(
            PolicyError::InvalidClientCidr {
                id,
                value: with_number("more than ", MAX_CLIENT_CIDRS as u64, " networks"),
            },
        );
    }
    let mut out: Vec<IpNetwork> = Vec::new();
    let mut i: usize = 0;
    while i < list.len()
        invariant
            i <= list.len(),
            all == texts(list@),
            first_bad_network(all.take(i as int)) == i,
            out.len() == i,
            out@ == networks_of(all.take(i as int)),
            !(client is Some && all.len() > 0),
            all.len() <= MAX_CLIENT_CIDRS,
        decreases list.len() - i,
    {
        assert(all[i as int] == list[i as int]@);
        let ghost next = all.take(i as int + 1);
        assert(next.drop_last() == all.take(i as int));
        assert(next.last() == all[i as int]);
        match IpNetwork::parse(list[i].as_str()) {
            Some(value) => {
                let ghost before = out@;
                out.push(value);
                assert forall|k: int| 0 <= k < i + 1 implies out@[k] == networks_of(next)[k] by {
                    if k < i {
                        assert(before[k] == networks_of(all.take(i as int))[k]);
                    }
                }
                assert(out@ =~= networks_of(next));
                i = i + 1;
            },
            None => {
                proof {
                    first_bad_network_stays(all, i as int);
                }
                return Err(PolicyError::InvalidClientCidr { id, value: list[i].clone() });
            },
        }
    }
    assert(all.take(i as int) =~= all);
    Ok(out)
}

/// The first unreadable text is found whatever follows it.
pub proof fn first_bad_network_stays(list: Seq<Seq<char>>, i: int)
    requires
        0 <= i < list.len(),
        first_bad_network(list.take(i + 1)) == i,
    ensures
        first_bad_network(list) == i,
    decreases list.len(),
{
    if list.len() == i + 1 {
        assert(list.take(i + 1) =~= list);
    } else {
        assert(list.drop_last().take(i + 1) =~= list.take(i + 1));
        first_bad_network_stays(list.drop_last(), i);
    }
}

/// The networks that a rule is scoped to: the single one before the list.
pub open spec fn rule_cidrs(rule: RuleView) -> Seq<Seq<char>> {
    match rule.client_cidr {
        Some(single) => seq![single] + rule.client_cidrs,
        None => rule.client_cidrs,
    }
}

pub open spec fn wildcard_prefix() -> Seq<char> {
    seq!['*', '.']
}

/// Whether the domain of a rule covers everything below a name.
pub open spec fn is_wildcard(domain: Seq<char>) -> bool {
    has_prefix(normal(domain), wildcard_prefix())
}

/// The name that a rule's domain speaks of.
pub open spec fn rule_name(domain: Seq<char>) -> Seq<char> {
    if is_wildcard(domain) {
        normal(domain).skip(2)
    } else {
        normal(domain)
    }
}

/// The meaning of a rule, or why it is refused.
pub open spec fn meaning(rule: RuleView) -> Result<Meaning, ErrorView> {
    if !listed_name(rule_name(rule.domain)) {
        Err(ErrorView::InvalidDomain { id: rule.id, domain: rule.domain })
    } else {
        match (
            selectors(rule.id, rule.qtype, rule.qtypes, "qtype"@),
            selectors(rule.id, rule.qclass, rule.qclasses, "qclass"@),
            scope_networks(rule.id, rule.client, rule_cidrs(rule)),
        ) {
            (Err(error), _, _) => Err(error),
            (_, Err(error), _) => Err(error),
            (_, _, Err(error)) => Err(error),
            (Ok(qtypes), Ok(qclasses), Ok(networks)) => if rule.client_identity is Some
                && !identity_label(rule.client_identity->0) {
                Err(ErrorView::InvalidClientIdentity { id: rule.id })
            } else {
                Ok(
                    Meaning {
                        enabled: rule.enabled,
                        id: rule.id,
                        wildcard: is_wildcard(rule.domain),
                        domain: rule_name(rule.domain),
                        action: rule.action,
                        priority: rule.priority,
                        qtypes,
                        qclasses,
                        client: rule.client,
                        networks,
                        identity: rule.client_identity,
                    },
                )
            },
        }
    }
}

/// An identity label: not empty and bounded.
pub open spec fn identity_label(label: Seq<char>) -> bool {
    1 <= crate::text::byte_len(label) <= MAX_CLIENT_IDENTITY_BYTES
}

/// Checks one rule.
pub fn compile_rule(rule: &RuleConfig) -> (r: Result<CompiledRule, PolicyError>)
    ensures
        match meaning(rule@) {
            Ok(value) => r is Ok && r->Ok_0@ == value,
            Err(error) => r is Err && r->Err_0@ == error,
        },
{
    let chars = to_chars(rule.domain.as_str());
    let full = normalize_chars(&chars);
    proof {
        reveal_strlit("*.");
        assert("*."@ =~= wildcard_prefix());
    }
    let stripped = strip_prefix(&full, "*.");
    let (wildcard, domain) = match stripped {
        Some(rest) => (true, rest),
        None => (false, full),
    };
    if !is_listed_name(&domain) {
        return Err(PolicyError::InvalidDomain { id: rule.id, domain: rule.domain.clone() });
    }
    let qtypes = match effective_query_selectors(rule.id, rule.qtype, &rule.qtypes, "qtype") {
        Ok(list) => list,
        Err(error) => {
            return Err(error);
        },
    };
    let qclasses = match effective_query_selectors(rule.id, rule.qclass, &rule.qclasses, "qclass") {
        Ok(list) => list,
        Err(error) => {
            return Err(error);
        },
    };
    let mut cidrs: Vec<String> = Vec::new();
    match &rule.client_cidr {
        Some(single) => {
            cidrs.push(single.clone());
        },
        None => {},
    }
    let mut rest = copy_texts(&rule.client_cidrs);
    cidrs.append(&mut rest);
    assert(texts(cidrs@) =~= rule_cidrs(rule@));
    let networks = match parse_scope_networks(rule.id, rule.client, &cidrs) {
        Ok(list) => list,
        Err(error) => {
            return Err(error);
        },
    };
    let identity = match &rule.client_identity {
        Some(label) => {
            let size: usize = crate::text::str_len(label.as_str());
            if size == 0 || size > MAX_CLIENT_IDENTITY_BYTES {
                return Err(PolicyError::InvalidClientIdentity { id: rule.id });
            }
            Some(to_chars(label.as_str()))
        },
        None => None,
    };
    Ok(
        CompiledRule {
            enabled: rule.enabled,
            id: rule.id,
            wildcard,
            domain,
            action: rule.action,
            priority: rule.priority,
            qtypes,
            qclasses,
            client: rule.client,
            networks,
            identity,
        },
    )
}

// ---- deciding ------------------------------------------------------------------------

/// The query that a decision is taken on.
#[derive(Clone, Copy, Debug)]
pub struct QueryContext<'a> {
    pub name: &'a str,
    pub qtype: u16,
    pub qclass: u16,
    pub client: Option<IpAddr>,
    pub client_identity: Option<&'a str>,
}

/// The value of a query context; the name is in normal form.
pub struct ContextView {
    pub name: Seq<char>,
    pub qtype: u16,
    pub qclass: u16,
    pub client: Option<IpAddr>,
    pub client_identity: Option<Seq<char>>,
}

impl<'a> View for QueryContext<'a> {
    type V = ContextView;

    open spec fn view(&self) -> ContextView {
        ContextView {
            name: normal(self.name@),
            qtype: self.qtype,
            qclass: self.qclass,
            client: self.client,
            client_identity: match self.client_identity {
                Some(label) => Some(label@),
                None => None,
            },
        }
    }
}

/// The rule that was selected, and what it decides.
#[derive(Clone, Copy, Debug, PartialEq, Eq, Structural)]
pub struct Decision {
    pub rule_id: u32,
    pub action: Action,
}

/// Whether an address belongs to one of the networks.
pub open spec fn in_some_network(networks: Seq<IpNetwork>, address: IpAddr) -> bool {
    exists|i: int| 0 <= i < networks.len() && in_network(#[trigger] networks[i], address)
}

pub fn contains_address(networks: &[IpNetwork], address: IpAddr) -> (r: bool)
    ensures
        r == in_some_network(networks@, address),
{
    let mut i: usize = 0;
    while i < networks.len()
        invariant
            i <= networks.len(),
            forall|k: int| 0 <= k < i ==> !in_network(#[trigger] networks@[k], address),
        decreases networks.len() - i,
    {
        if networks[i].contains(address) {
            assert(in_network(networks@[i as int], address));
            return true;
        }
        i = i + 1;
    }
    false
}

/// Whether a list of selectors admits a value: an empty list admits every value.
pub open spec fn selects(list: Seq<u16>, value: u16) -> bool {
    list.len() == 0 || list.contains(value)
}

pub fn is_selected(list: &[u16], value: u16) -> (r: bool)
    ensures
        r == selects(list@, value),
{
    list.len() == 0 || has_u16(list, value)
}

/// Whether a client scope admits a client.
pub open spec fn scope_admits(
    exact: Option<IpAddr>,
    networks: Seq<IpNetwork>,
    client: Option<IpAddr>,
) -> bool {
    &&& exact is Some ==> client == exact
    &&& networks.len() > 0 ==> client is Some && in_some_network(networks, client->0)
}

pub fn admits_client(exact: Option<IpAddr>, networks: &[IpNetwork], client: Option<IpAddr>) -> (r:
    bool)
    ensures
        r == scope_admits(exact, networks@, client),
{
    match (exact, client) {
        (Some(a), Some(b)) => {
            if a != b {
                return false;
            }
        },
        (Some(_), None) => {
            return false;
        },
        _ => {},
    }
    if networks.len() == 0 {
        return true;
    }
    match client {
        Some(address) => contains_address(networks, address),
        None => false,
    }
}

/// Whether a rule speaks of the query.
pub open spec fn applies(rule: Meaning, query: ContextView) -> bool {
    &&& rule.enabled
    &&& if rule.wildcard {
        below(query.name, rule.domain)
    } else {
        query.name == rule.domain
    }
    &&& selects(rule.qtypes, query.qtype)
    &&& selects(rule.qclasses, query.qclass)
    &&& scope_admits(rule.client, rule.networks, query.client)
    &&& rule.identity is Some ==> query.client_identity == rule.identity
}

impl CompiledRule {
    fn applies_to(
        &self,
        name: &[char],
        qtype: u16,
        qclass: u16,
        client: Option<IpAddr>,
        identity: &Option<Vec<char>>,
    ) -> (r: bool)
        ensures
            r == applies(
                self@,
                (ContextView {
                    name: name@,
                    qtype,
                    qclass,
                    client,
                    client_identity: match *identity {
                        Some(text) => Some(text@),
                        None => None,
                    },
                }),
            ),
    {
        if !self.enabled {
            return false;
        }
        let named = if self.wildcard {
            is_below(name, &self.domain)
        } else {
            same(name, &self.domain)
        };
        if !named || !is_selected(&self.qtypes, qtype) || !is_selected(&self.qclasses, qclass) {
            return false;
        }
        if !admits_client(self.client, &self.networks, client) {
            return false;
        }
        match (&self.identity, identity) {
            (Some(wanted), Some(given)) => same(wanted, given),
            (Some(_), None) => false,
            (None, _) => true,
        }
    }
}

/// The longest prefix among the networks; zero where there is none.
pub open spec fn longest_prefix(networks: Seq<IpNetwork>) -> int
    decreases networks.len(),
{
    if networks.len() == 0 {
        0
    } else {
        let before = longest_prefix(networks.drop_last());
        if networks.last().prefix as int > before {
            networks.last().prefix as int
        } else {
            before
        }
    }
}

pub fn max_prefix(networks: &[IpNetwork]) -> (r: u8)
    ensures
        r == longest_prefix(networks@),
{
    let mut best: u8 = 0;
    let mut i: usize = 0;
    while i < networks.len()
        invariant
            i <= networks.len(),
            best == longest_prefix(networks@.take(i as int)),
        decreases networks.len() - i,
    {
        assert(networks@.take(i as int + 1).drop_last() == networks@.take(i as int));
        assert(networks@.take(i as int + 1).last() == networks@[i as int]);
        if networks[i].prefix > best {
            best = networks[i].prefix;
        }
        i = i + 1;
    }
    assert(networks@.take(i as int) =~= networks@);
    best
}

/// What decides between two rules that both apply: the priority first, then how narrowly
/// the class, the type, the client and its networks are given, and the number last.
pub struct Precedence {
    pub priority: int,
    pub class_given: bool,
    pub type_given: bool,
    pub client_given: bool,
    pub prefix: int,
    pub id: int,
}

/// Whether `a` comes after `b` in precedence.
pub open spec fn weaker(a: Precedence, b: Precedence) -> bool {
    if a.priority != b.priority {
        a.priority < b.priority
    } else if a.class_given != b.class_given {
        b.class_given
    } else if a.type_given != b.type_given {
        b.type_given
    } else if a.client_given != b.client_given {
        b.client_given
    } else if a.prefix != b.prefix {
        a.prefix < b.prefix
    } else {
        a.id < b.id
    }
}

/// The precedence of a rule, as plain numbers.
#[derive(Clone, Copy, Debug)]
pub struct Rank {
    pub priority: i32,
    pub class_given: bool,
    pub type_given: bool,
    pub client_given: bool,
    pub prefix: u8,
    pub id: u32,
}

impl View for Rank {
    type V = Precedence;

    open spec fn view(&self) -> Precedence {
        Precedence {
            priority: self.priority as int,
            class_given: self.class_given,
            type_given: self.type_given,
            client_given: self.client_given,
            prefix: self.prefix as int,
            id: self.id as int,
        }
    }
}

impl Rank {
    pub fn weaker_than(&self, other: &Rank) -> (r: bool)
        ensures
            r == weaker(self@, other@),
    {
        if self.priority != other.priority {
            self.priority < other.priority
        } else if self.class_given != other.class_given {
            other.class_given
        } else if self.type_given != other.type_given {
            other.type_given
        } else if self.client_given != other.client_given {
            other.client_given
        } else if self.prefix != other.prefix {
            self.prefix < other.prefix
        } else {
            self.id < other.id
        }
    }
}

pub open spec fn precedence(rule: Meaning) -> Precedence {
    Precedence {
        priority: rule.priority as int,
        class_given: rule.qclasses.len() > 0,
        type_given: rule.qtypes.len() > 0,
        client_given: rule.client is Some,
        prefix: longest_prefix(rule.networks),
        id: rule.id as int,
    }
}

/// The position of the strongest applying rule among the first `n`.
pub open spec fn strongest(rules: Seq<Meaning>, query: ContextView, n: int) -> Option<int>
    decreases n,
{
    if n <= 0 {
        None
    } else {
        let best = strongest(rules, query, n - 1);
        let rule = rules[n - 1];
        if applies(rule, query) && (best is None || !weaker(
            precedence(rule),
            precedence(rules[best->0]),
        )) {
            Some(n - 1)
        } else {
            best
        }
    }
}

/// The decision of a list of rules on a query.
pub open spec fn decision(rules: Seq<Meaning>, query: ContextView) -> Option<Decision> {
    match strongest(rules, query, rules.len() as int) {
        Some(i) => Some(Decision { rule_id: rules[i].id, action: rules[i].action }),
        None => None,
    }
}

/// A decision comes from a rule that applies, and no applying rule outranks it; there is no
/// decision exactly when no rule applies.
pub proof fn decision_is_the_strongest_rule(rules: Seq<Meaning>, query: ContextView, n: int)
    requires
        0 <= n <= rules.len(),
    ensures
        match strongest(rules, query, n) {
            Some(i) => {
                &&& 0 <= i < n
                &&& applies(rules[i], query)
                &&& forall|j: int|
                    0 <= j < n && applies(#[trigger] rules[j], query) ==> !weaker(
                        precedence(rules[i]),
                        precedence(rules[j]),
                    )
            },
            None => forall|j: int| 0 <= j < n ==> !applies(#[trigger] rules[j], query),
        },
    decreases n,
{
    if n > 0 {
        decision_is_the_strongest_rule(rules, query, n - 1);
    }
}

/// The domain rules of a policy, checked and ready to decide.
pub struct ReferencePolicy {
    pub rules: Vec<CompiledRule>,
}

impl View for ReferencePolicy {
    type V = Seq<Meaning>;

    open spec fn view(&self) -> Seq<Meaning> {
        meanings(self.rules@)
    }
}

/// The meanings of a list of rules; the first rule that is refused, or that repeats the
/// number of an earlier one, refuses the list.
pub open spec fn compiled(rules: Seq<RuleView>) -> Result<Seq<Meaning>, ErrorView>
    decreases rules.len(),
{
    if rules.len() == 0 {
        Ok(Seq::empty())
    } else {
        let last = rules.last();
        match compiled(rules.drop_last()) {
            Err(error) => Err(error),
            Ok(done) => if has_id(rules.drop_last(), last.id) {
                Err(ErrorView::DuplicateRule { id: last.id })
            } else {
                match meaning(last) {
                    Err(error) => Err(error),
                    Ok(value) => Ok(done.push(value)),
                }
            },
        }
    }
}

/// Whether one of the rules carries the number.
pub open spec fn has_id(rules: Seq<RuleView>, id: u32) -> bool {
    exists|i: int| 0 <= i < rules.len() && (#[trigger] rules[i]).id == id
}

/// The meaning of a whole policy.
pub open spec fn compiled_policy(rules: Seq<RuleView>) -> Result<Seq<Meaning>, ErrorView> {
    if rules.len() > MAX_RULES {
        Err(ErrorView::TooManyRules { max: MAX_RULES })
    } else {
        compiled(rules)
    }
}

/// A prefix that is refused refuses the whole list with the same error.
pub proof fn compiled_error_stays(rules: Seq<RuleView>, n: int)
    requires
        0 <= n <= rules.len(),
        compiled(rules.take(n)) is Err,
    ensures
        compiled(rules) == compiled(rules.take(n)),
    decreases rules.len(),
{
    if n == rules.len() {
        assert(rules.take(n) =~= rules);
    } else {
        assert(rules.drop_last().take(n) =~= rules.take(n));
        compiled_error_stays(rules.drop_last(), n);
    }
}

/// Accepted rules carry distinct numbers.
pub proof fn compiled_ids_are_distinct(rules: Seq<RuleView>)
    requires
        compiled(rules) is Ok,
    ensures
        forall|i: int, j: int| 0 <= i < j < rules.len() ==> rules[i].id != rules[j].id,
    decreases rules.len(),
{
    if rules.len() > 0 {
        let front = rules.drop_last();
        compiled_ids_are_distinct(front);
        assert forall|i: int, j: int| 0 <= i < j < rules.len() implies rules[i].id
            != rules[j].id by {
            assert(front[i] == rules[i]);
            if j == rules.len() - 1 {
                assert(!has_id(front, rules.last().id));
            } else {
                assert(front[j] == rules[j]);
            }
        }
    }
}

/// Each accepted rule keeps its place and has the meaning it has alone.
pub proof fn compiled_keeps_rule(rules: Seq<RuleView>, i: int)
    requires
        compiled(rules) is Ok,
        0 <= i < rules.len(),
    ensures
        compiled(rules)->Ok_0.len() == rules.len(),
        meaning(rules[i]) is Ok,
        compiled(rules)->Ok_0[i] == meaning(rules[i])->Ok_0,
    decreases rules.len(),
{
    let front = rules.drop_last();
    assert(compiled(front) is Ok);
    if i < rules.len() - 1 {
        compiled_keeps_rule(front, i);
        assert(front[i] == rules[i]);
    } else if front.len() > 0 {
        compiled_keeps_rule(front, 0);
    }
    let last = meaning(rules.last());
    assert(last is Ok);
    assert(compiled(rules)->Ok_0 == compiled(front)->Ok_0.push(last->Ok_0));
}

/// Whether one of the first `count` rules carries the number.
fn id_used(rules: &[RuleConfig], count: usize, id: u32) -> (r: bool)
    requires
        count <= rules.len(),
    ensures
        r == has_id(rule_views(rules@).take(count as int), id),
{
    let ghost all = rule_views(rules@).take(count as int);
    let mut i: usize = 0;
    while i < count
        invariant
            i <= count <= rules.len(),
            all == rule_views(rules@).take(count as int),
            forall|k: int| 0 <= k < i ==> (#[trigger] all[k]).id != id,
        decreases count - i,
    {
        assert(all[i as int] == rules[i as int]@);
        if rules[i].id == id {
            return true;
        }
        i = i + 1;
    }
    false
}

impl ReferencePolicy {
    /// Checks the rules and makes a policy of them.
    pub fn new(rules: &[RuleConfig]) -> (r: Result<ReferencePolicy, PolicyError>)
        ensures
            match compiled_policy(rule_views(rules@)) {
                Ok(value) => r is Ok && r->Ok_0@ == value,
                Err(error) => r is Err && r->Err_0@ == error,
            },
    {
        let ghost all = rule_views(rules@);
        if rules.len() > MAX_RULES {
            return Err(PolicyError::TooManyRules { max: MAX_RULES });
        }
        let mut out: Vec<CompiledRule> = Vec::new();
        let mut i: usize = 0;
        assert(meanings(out@) =~= Seq::<Meaning>::empty());
        while i < rules.len()
            invariant
                i <= rules.len() <= MAX_RULES,
                all == rule_views(rules@),
                compiled(all.take(i as int)) == Ok::<Seq<Meaning>, ErrorView>(meanings(out@)),
            decreases rules.len() - i,
        {
            let ghost next = all.take(i as int + 1);
            assert(next.drop_last() == all.take(i as int));
            assert(next.last() == rules[i as int]@);
            if id_used(rules, i, rules[i].id) {
                proof {
                    compiled_error_stays(all, i as int + 1);
                }
                return Err(PolicyError::DuplicateRule { id: rules[i].id });
            }
            match compile_rule(&rules[i]) {
                Ok(rule) => {
                    let ghost before = meanings(out@);
                    out.push(rule);
                    assert(meanings(out@) =~= before.push(rule@));
                    i = i + 1;
                },
                Err(error) => {
                    proof {
                        compiled_error_stays(all, i as int + 1);
                    }
                    return Err(error);
                },
            }
        }
        assert(all.take(i as int) =~= all);
        Ok(ReferencePolicy { rules: out })
    }

    /// The decision on a query, where a rule applies.
    pub fn decide(&self, query: QueryContext<'_>) -> (r: Option<Decision>)
        ensures
            r == decision(self@, query@),
    {
        let chars = to_chars(query.name);
        let name = normalize_chars(&chars);
        let identity = match query.client_identity {
            Some(label) => Some(to_chars(label)),
            None => None,
        };
        let ghost view = query@;
        let mut best: Option<usize> = None;
        let mut i: usize = 0;
        while i < self.rules.len()
            invariant
                i <= self.rules.len(),
                view == query@,
                name@ == view.name,
                identity is Some <==> view.client_identity is Some,
                identity is Some ==> identity->0@ == view.client_identity->0,
                match best {
                    Some(at) => at < i && strongest(self@, view, i as int) == Some(at as int),
                    None => strongest(self@, view, i as int) == None::<int>,
                },
            decreases self.rules.len() - i,
        {
            let rule = &self.rules[i];
            assert(self@[i as int] == rule@);
            if rule.applies_to(&name, query.qtype, query.qclass, query.client, &identity) {
                let better = match best {
                    Some(at) => {
                        assert(self@[at as int] == self.rules[at as int]@);
                        !rule.rank().weaker_than(&self.rules[at].rank())
                    },
                    None => true,
                };
                if better {
                    best = Some(i);
                }
            }
            i = i + 1;
        }
        match best {
            Some(at) => {
                assert(self@[at as int] == self.rules[at as int]@);
                Some(Decision { rule_id: self.rules[at].id, action: self.rules[at].action })
            },
            None => None,
        }
    }
}

impl CompiledRule {
    fn rank(&self) -> (r: Rank)
        ensures
            r@ == precedence(self@),
    {
        Rank {
            priority: self.priority,
            class_given: self.qclasses.len() > 0,
            type_given: self.qtypes.len() > 0,
            client_given: self.client.is_some(),
            prefix: max_prefix(&self.networks),
            id: self.id,
        }
    }
}

// ---- what rules say ------------------------------------------------------------------

/// A list of numbers comes no later than another in the order of dictionaries.
pub open spec fn no_greater(a: Seq<int>, b: Seq<int>) -> bool
    decreases a.len(),
{
    if a.len() == 0 || b.len() == 0 {
        true
    } else if a[0] != b[0] {
        a[0] < b[0]
    } else {
        no_greater(a.skip(1), b.skip(1))
    }
}

pub open spec fn one_if(given: bool) -> int {
    if given {
        1
    } else {
        0
    }
}

/// The prefix of the narrowest network; zero where there is none.
pub open spec fn is_narrowest(networks: Seq<IpNetwork>, prefix: int) -> bool {
    &&& prefix >= 0
    &&& forall|i: int| 0 <= i < networks.len() ==> (#[trigger] networks[i]).prefix <= prefix
    &&& prefix == 0 || exists|i: int|
        0 <= i < networks.len() && (#[trigger] networks[i]).prefix == prefix
}

/// The prefix that counts for a rule is that of its narrowest network.
pub proof fn the_narrowest_network_counts(networks: Seq<IpNetwork>)
    ensures
        is_narrowest(networks, longest_prefix(networks)),
    decreases networks.len(),
{
    if networks.len() > 0 {
        let front = networks.drop_last();
        the_narrowest_network_counts(front);
        let prefix = longest_prefix(networks);
        assert forall|i: int| 0 <= i < networks.len() implies (#[trigger] networks[i]).prefix
            <= prefix by {
            if i < front.len() {
                assert(front[i] == networks[i]);
            }
        }
        if prefix != 0 {
            if prefix == longest_prefix(front) {
                let i = choose|i: int|
                    0 <= i < front.len() && (#[trigger] front[i]).prefix == prefix;
                assert(networks[i].prefix == prefix);
            } else {
                assert(networks[networks.len() - 1].prefix == prefix);
            }
        }
    }
}

/// What ranks a rule: its priority, then whether it names classes, types and a client, the prefix of
/// its narrowest network, and its number.
pub open spec fn ranks_as(rule: Meaning, key: Seq<int>) -> bool {
    &&& key.len() == 6
    &&& key[0] == rule.priority
    &&& key[1] == one_if(rule.qclasses.len() > 0)
    &&& key[2] == one_if(rule.qtypes.len() > 0)
    &&& key[3] == one_if(rule.client is Some)
    &&& is_narrowest(rule.networks, key[4])
    &&& key[5] == rule.id
}

/// Precedence goes by the first of these that differs.
pub proof fn ranks_are_lexical(a: Precedence, b: Precedence)
    ensures
        !weaker(b, a) <==> no_greater(
            seq![
                a.priority,
                one_if(a.class_given),
                one_if(a.type_given),
                one_if(a.client_given),
                a.prefix,
                a.id,
            ],
            seq![
                b.priority,
                one_if(b.class_given),
                one_if(b.type_given),
                one_if(b.client_given),
                b.prefix,
                b.id,
            ],
        ),
{
    reveal_with_fuel(no_greater, 7);
}

proof fn narrowest_is_unique(networks: Seq<IpNetwork>, a: int, b: int)
    requires
        is_narrowest(networks, a),
        is_narrowest(networks, b),
    ensures
        a == b,
{
}

/// The rule that decides applies, and no rule that applies has a higher priority; among those of its
/// priority the one that names classes comes first, then the one that names types, a client, the
/// narrowest network, and the higher number. Where no rule applies there is no decision.
pub proof fn the_highest_ranked_rule_decides(rules: Seq<Meaning>, query: ContextView)
    ensures
        match decision(rules, query) {
            Some(found) => exists|i: int|
                0 <= i < rules.len() && #[trigger] applies(rules[i], query) && found.rule_id
                    == rules[i].id && found.action == rules[i].action && forall|
                    j: int,
                    mine: Seq<int>,
                    other: Seq<int>,
                |
                    0 <= j < rules.len() && applies(rules[j], query) && #[trigger] ranks_as(
                        rules[i],
                        mine,
                    ) && #[trigger] ranks_as(rules[j], other) ==> no_greater(other, mine),
            None => forall|j: int| 0 <= j < rules.len() ==> !#[trigger] applies(rules[j], query),
        },
{
    let n = rules.len() as int;
    decision_is_the_strongest_rule(rules, query, n);
    match strongest(rules, query, n) {
        Some(i) => {
            assert forall|j: int, mine: Seq<int>, other: Seq<int>|
                0 <= j < rules.len() && applies(rules[j], query) && #[trigger] ranks_as(
                    rules[i],
                    mine,
                ) && #[trigger] ranks_as(rules[j], other) implies no_greater(other, mine) by {
                let (a, b) = (precedence(rules[j]), precedence(rules[i]));
                the_narrowest_network_counts(rules[i].networks);
                the_narrowest_network_counts(rules[j].networks);
                narrowest_is_unique(rules[i].networks, mine[4], b.prefix);
                narrowest_is_unique(rules[j].networks, other[4], a.prefix);
                ranks_are_lexical(a, b);
                assert(mine =~= seq![
                    b.priority,
                    one_if(b.class_given),
                    one_if(b.type_given),
                    one_if(b.client_given),
                    b.prefix,
                    b.id,
                ]);
                assert(other =~= seq![
                    a.priority,
                    one_if(a.class_given),
                    one_if(a.type_given),
                    one_if(a.client_given),
                    a.prefix,
                    a.id,
                ]);
            }
            assert(applies(rules[i], query));
        },
        None => {},
    }
}

/// A name is the one that a rule's domain speaks of: the same name, or with a star and a dot before
/// it any name below it.
pub open spec fn domain_covers(domain: Seq<char>, name: Seq<char>) -> bool {
    let plain = normal(domain);
    if plain.len() >= 2 && plain[0] == '*' && plain[1] == '.' {
        exists|before: Seq<char>| name == #[trigger] (before + seq!['.']) + plain.skip(2)
    } else {
        name == plain
    }
}

proof fn domains_cover_names(domain: Seq<char>, name: Seq<char>)
    ensures
        is_wildcard(domain) <==> normal(domain).len() >= 2 && normal(domain)[0] == '*' && normal(
            domain,
        )[1] == '.',
        domain_covers(domain, name) <==> if is_wildcard(domain) {
            below(name, rule_name(domain))
        } else {
            name == rule_name(domain)
        },
{
    let plain = normal(domain);
    if plain.len() >= 2 && plain[0] == '*' && plain[1] == '.' {
        assert(plain.take(2) =~= wildcard_prefix());
    }
    if is_wildcard(domain) {
        assert(plain.take(2)[0] == '*' && plain.take(2)[1] == '.');
        let d = plain.skip(2);
        if below(name, d) {
            let before = name.take(name.len() - d.len() - 1);
            crate::names::names_below_end_with_a_dot_and_the_domain(before, d);
            assert(name == (before + seq!['.']) + d);
        }
        if exists|before: Seq<char>| name == #[trigger] (before + seq!['.']) + d {
            let before = choose|before: Seq<char>| name == #[trigger] (before + seq!['.']) + d;
            crate::names::names_below_end_with_a_dot_and_the_domain(before, d);
        }
    }
}

/// The first text that is no network is found, where there is one.
pub proof fn bad_networks_are_found(list: Seq<Seq<char>>)
    ensures
        0 <= first_bad_network(list) <= list.len(),
        first_bad_network(list) == list.len() <==> forall|i: int|
            0 <= i < list.len() ==> network(#[trigger] list[i]) is Some,
        first_bad_network(list) < list.len() ==> network(list[first_bad_network(list)]) is None,
    decreases list.len(),
{
    if list.len() > 0 {
        let front = list.drop_last();
        bad_networks_are_found(front);
        if first_bad_network(list) == list.len() {
            assert forall|i: int| 0 <= i < list.len() implies network(#[trigger] list[i]) is Some by {
                if i < front.len() {
                    assert(front[i] == list[i]);
                }
            }
        }
        if forall|i: int| 0 <= i < list.len() ==> network(#[trigger] list[i]) is Some {
            assert forall|i: int| 0 <= i < front.len() implies network(
                #[trigger] front[i],
            ) is Some by {
                assert(front[i] == list[i]);
            }
            assert(list[list.len() - 1] == list.last());
        }
    }
}

/// Whether a type, or a class, is one that a rule is for: the single one, one of the list, or any
/// where neither is given.
pub open spec fn is_for(single: Option<u16>, many: Seq<u16>, value: u16) -> bool {
    single is None && many.len() == 0 || single == Some(value) || single is None && many.contains(
        value,
    )
}

/// Whether a client is in one of the networks that are written down.
pub open spec fn in_written_network(single: Option<Seq<char>>, many: Seq<Seq<char>>, client: IpAddr) -> bool {
    ||| single is Some && network(single->0) is Some && in_network(network(single->0)->0, client)
    ||| exists|i: int|
        0 <= i < many.len() && network(#[trigger] many[i]) is Some && in_network(
            network(many[i])->0,
            client,
        )
}

/// An accepted rule applies to a query exactly where it is enabled, its domain covers the name, the
/// type and the class are among those that it is for, the client is the one that it names or in one
/// of the networks that it names, where it names any, and the client carries the label that it asks
/// for. Its number, its action and its priority are those of the configuration.
pub proof fn rules_apply_where_they_say(rule: RuleView, query: ContextView)
    requires
        meaning(rule) is Ok,
    ensures
        applies(meaning(rule)->Ok_0, query) <==> {
            &&& rule.enabled
            &&& domain_covers(rule.domain, query.name)
            &&& is_for(rule.qtype, rule.qtypes, query.qtype)
            &&& is_for(rule.qclass, rule.qclasses, query.qclass)
            &&& rule.client is Some ==> query.client == rule.client
            &&& rule.client_cidr is Some || rule.client_cidrs.len() > 0 ==> query.client is Some
                && in_written_network(rule.client_cidr, rule.client_cidrs, query.client->0)
            &&& rule.client_identity is Some ==> query.client_identity == rule.client_identity
        },
        meaning(rule)->Ok_0.id == rule.id,
        meaning(rule)->Ok_0.action == rule.action,
        meaning(rule)->Ok_0.priority == rule.priority,
{
    let m = meaning(rule)->Ok_0;
    domains_cover_names(rule.domain, query.name);
    let cidrs = rule_cidrs(rule);
    bad_networks_are_found(cidrs);
    if rule.qtype is Some {
        assert(m.qtypes =~= seq![rule.qtype->0]);
        assert(m.qtypes.contains(rule.qtype->0)) by {
            assert(m.qtypes[0] == rule.qtype->0);
        }
    }
    if rule.qclass is Some {
        assert(m.qclasses =~= seq![rule.qclass->0]);
        assert(m.qclasses.contains(rule.qclass->0)) by {
            assert(m.qclasses[0] == rule.qclass->0);
        }
    }
    if query.client is Some {
        let client = query.client->0;
        written_networks_are_read(rule.client_cidr, rule.client_cidrs, cidrs, client);
    }
}

proof fn written_networks_are_read(
    single: Option<Seq<char>>,
    many: Seq<Seq<char>>,
    cidrs: Seq<Seq<char>>,
    client: IpAddr,
)
    requires
        cidrs == (match single {
            Some(text) => seq![text] + many,
            None => many,
        }),
        forall|i: int| 0 <= i < cidrs.len() ==> network(#[trigger] cidrs[i]) is Some,
    ensures
        in_some_network(networks_of(cidrs), client) <==> in_written_network(single, many, client),
{
    let networks = networks_of(cidrs);
    let first = if single is Some {
        1int
    } else {
        0
    };
    assert forall|i: int| 0 <= i < many.len() implies #[trigger] many[i] == cidrs[i + first] by {}
    if in_some_network(networks, client) {
        let i = choose|i: int| 0 <= i < networks.len() && in_network(#[trigger] networks[i], client);
        assert(network(cidrs[i]) is Some);
        if i >= first {
            assert(many[i - first] == cidrs[i]);
        }
    }
    if in_written_network(single, many, client) {
        if single is Some && network(single->0) is Some && in_network(network(single->0)->0, client) {
            assert(networks[0] == network(cidrs[0])->0);
            assert(in_network(networks[0], client));
        } else {
            let i = choose|i: int|
                0 <= i < many.len() && network(#[trigger] many[i]) is Some && in_network(
                    network(many[i])->0,
                    client,
                );
            assert(networks[i + first] == network(cidrs[i + first])->0);
            assert(in_network(networks[i + first], client));
        }
    }
}

/// A rule is accepted exactly where its domain is a name that may be listed, it gives a single type
/// or class beside a list only where both say the same, it names a client or at most 256 networks
/// that can be read, and the label that it asks for has 1 to 128 bytes.
pub proof fn accepted_rules_are_clear(rule: RuleView)
    ensures
        meaning(rule) is Ok <==> {
            &&& listed_name(rule_name(rule.domain))
            &&& rule.qtype is Some ==> rule.qtypes.len() == 0 || rule.qtypes == seq![rule.qtype->0]
            &&& rule.qclass is Some ==> rule.qclasses.len() == 0 || rule.qclasses == seq![
                rule.qclass->0,
            ]
            &&& rule.client is None || rule_cidrs(rule).len() == 0
            &&& rule_cidrs(rule).len() <= 256
            &&& forall|i: int|
                0 <= i < rule_cidrs(rule).len() ==> network(#[trigger] rule_cidrs(rule)[i]) is Some
            &&& rule.client_identity is Some ==> 1 <= crate::text::byte_len(
                rule.client_identity->0,
            ) <= 128
        },
{
    bad_networks_are_found(rule_cidrs(rule));
}

/// Rules are accepted together exactly where each is accepted alone, no number is given twice, and
/// there are at most 65536 of them.
pub proof fn accepted_rules_have_their_own_numbers(rules: Seq<RuleView>)
    ensures
        compiled_policy(rules) is Ok <==> {
            &&& rules.len() <= 65_536
            &&& forall|i: int| 0 <= i < rules.len() ==> meaning(#[trigger] rules[i]) is Ok
            &&& forall|i: int, j: int|
                0 <= i < j < rules.len() ==> (#[trigger] rules[i]).id != (#[trigger] rules[j]).id
        },
{
    clear_rules_are_compiled(rules);
}

proof fn clear_rules_are_compiled(rules: Seq<RuleView>)
    ensures
        compiled(rules) is Ok <==> {
            &&& forall|i: int| 0 <= i < rules.len() ==> meaning(#[trigger] rules[i]) is Ok
            &&& forall|i: int, j: int|
                0 <= i < j < rules.len() ==> (#[trigger] rules[i]).id != (#[trigger] rules[j]).id
        },
    decreases rules.len(),
{
    if compiled(rules) is Ok {
        compiled_ids_are_distinct(rules);
        assert forall|i: int| 0 <= i < rules.len() implies meaning(#[trigger] rules[i]) is Ok by {
            compiled_keeps_rule(rules, i);
        }
    }
    if rules.len() > 0 && (forall|i: int|
        0 <= i < rules.len() ==> meaning(#[trigger] rules[i]) is Ok) && (forall|i: int, j: int|
        0 <= i < j < rules.len() ==> (#[trigger] rules[i]).id != (#[trigger] rules[j]).id) {
        let front = rules.drop_last();
        assert forall|i: int| 0 <= i < front.len() implies meaning(#[trigger] front[i]) is Ok by {
            assert(front[i] == rules[i]);
        }
        assert forall|i: int, j: int| 0 <= i < j < front.len() implies (#[trigger] front[i]).id != (
        #[trigger] front[j]).id by {
            assert(rules[i].id != rules[j].id);
        }
        clear_rules_are_compiled(front);
        assert(!has_id(front, rules.last().id)) by {
            if has_id(front, rules.last().id) {
                let i = choose|i: int|
                    0 <= i < front.len() && (#[trigger] front[i]).id == rules.last().id;
                assert(rules[i].id != rules[rules.len() - 1].id);
            }
        }
        assert(meaning(rules[rules.len() - 1]) is Ok);
    }
}

} // verus!
