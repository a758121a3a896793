//! Decisions on queries: which action is taken, and what is answered without asking anybody.
use vstd::prelude::*;
use vstd::string::*;

use crate::admission::{admission_allows, admitted, cap_answer, capped, deny_client, on_deny_list};
use crate::config::{HoneypotConfig, Mode};
use crate::dns::{honeypot_answer, no_such_name, ok_answer, refusal, refused_answer,
    synthetic_honeypot_answer, AnswerView, DnsAnswer, DnsQuery, RecordView};
use crate::identities::{client_identity_for, label_of};
use crate::legacy::{listed, matches_domains};
use crate::names::{normal, normalize};
use crate::net::IpAddr;
use crate::policy::{decision, Action, ContextView, Decision, QueryContext};
use crate::query::{dotted, QueryView};
use crate::regex_rules::regex_verdict;
use crate::rewrites::local_answer;
use crate::runtime::Policy;
use crate::state::{has_rules, Tables, TablesView};

verus! {

// ---- names of actions and modes ------------------------------------------------------

pub open spec fn action_name(action: Action) -> Seq<char> {
    match action {
        Action::Pass => "pass"@,
        Action::Ignore => "ignore"@,
        Action::Drop => "drop"@,
        Action::Reject => "reject"@,
        Action::Nxdomain => "nxdomain"@,
        Action::Sink => "sink"@,
        Action::Honeypot => "honeypot"@,
        Action::Forward => "forward"@,
        Action::Observe => "observe"@,
    }
}

pub fn action_label(action: Action) -> (r: &'static str)
    ensures
        r@ == action_name(action),
{
    match action {
        Action::Pass => "pass",
        Action::Ignore => "ignore",
        Action::Drop => "drop",
        Action::Reject => "reject",
        Action::Nxdomain => "nxdomain",
        Action::Sink => "sink",
        Action::Honeypot => "honeypot",
        Action::Forward => "forward",
        Action::Observe => "observe",
    }
}

/// The place of an action among the counters.
pub open spec fn action_place(action: Action) -> int {
    match action {
        Action::Pass => 0,
        Action::Ignore => 1,
        Action::Drop => 2,
        Action::Reject => 3,
        Action::Nxdomain => 4,
        Action::Sink => 5,
        Action::Honeypot => 6,
        Action::Forward => 7,
        Action::Observe => 8,
    }
}

pub fn action_index(action: Action) -> (r: usize)
    ensures
        r == action_place(action),
        r < 9,
{
    match action {
        Action::Pass => 0,
        Action::Ignore => 1,
        Action::Drop => 2,
        Action::Reject => 3,
        Action::Nxdomain => 4,
        Action::Sink => 5,
        Action::Honeypot => 6,
        Action::Forward => 7,
        Action::Observe => 8,
    }
}

pub open spec fn mode_name(mode: Mode) -> Seq<char> {
    match mode {
        Mode::Ignore => "ignore"@,
        Mode::Nxdomain => "nxdomain"@,
        Mode::Honeypot => "honeypot"@,
    }
}

pub fn mode_label(mode: Mode) -> (r: &'static str)
    ensures
        r@ == mode_name(mode),
{
    match mode {
        Mode::Ignore => "ignore",
        Mode::Nxdomain => "nxdomain",
        Mode::Honeypot => "honeypot",
    }
}

/// The action that a mode stands for.
pub open spec fn mode_action(mode: Mode) -> Action {
    match mode {
        Mode::Ignore => Action::Ignore,
        Mode::Nxdomain => Action::Nxdomain,
        Mode::Honeypot => Action::Honeypot,
    }
}

pub fn legacy_action(mode: Mode) -> (r: Action)
    ensures
        r == mode_action(mode),
{
    match mode {
        Mode::Ignore => Action::Ignore,
        Mode::Nxdomain => Action::Nxdomain,
        Mode::Honeypot => Action::Honeypot,
    }
}

// ---- decisions -----------------------------------------------------------------------

/// The decision of the tables: a domain rule comes before a rule with an expression.
pub open spec fn rule_decision(
    tables: TablesView,
    name: Seq<char>,
    qtype: u16,
    qclass: u16,
    client: Option<IpAddr>,
    identity: Option<Seq<char>>,
) -> Option<Decision> {
    match decision(
        tables.reference,
        ContextView { name: normal(name), qtype, qclass, client, client_identity: identity },
    ) {
        Some(found) => Some(found),
        None => regex_verdict(tables.regex_rules, normal(name), qtype, qclass, client),
    }
}

/// The action of the tables, where rules are configured.
pub open spec fn rule_action(
    tables: TablesView,
    name: Seq<char>,
    qtype: u16,
    qclass: u16,
    client: Option<IpAddr>,
    identity: Option<Seq<char>>,
) -> Action {
    match rule_decision(tables, name, qtype, qclass, client, identity) {
        Some(found) => found.action,
        None => tables.default_action,
    }
}

/// The action on a query whose client may be known by address and by a given label.
pub open spec fn view_action(
    tables: TablesView,
    name: Seq<char>,
    qtype: u16,
    qclass: u16,
    client: Option<IpAddr>,
    given: Option<Seq<char>>,
) -> Action {
    if on_deny_list(tables.admission.deny_client_cidrs, client) {
        Action::Reject
    } else if !tables.filtering_enabled {
        Action::Pass
    } else if !has_rules(tables) {
        if listed(tables.legacy_domains, name) {
            mode_action(tables.legacy_mode)
        } else {
            Action::Pass
        }
    } else {
        rule_action(
            tables,
            name,
            qtype,
            qclass,
            client,
            match given {
                Some(label) => Some(label),
                None => label_of(tables.client_identities, client),
            },
        )
    }
}

impl Tables {
    /// Decides on a query by the rules.
    pub fn decide(
        &self,
        name: &str,
        qtype: u16,
        qclass: u16,
        client: Option<IpAddr>,
        identity: Option<&str>,
    ) -> (r: Option<Decision>)
        requires
            self.parts_wf(),
        ensures
            r == rule_decision(
                self@,
                name@,
                qtype,
                qclass,
                client,
                match identity {
                    Some(label) => Some(label@),
                    None => None,
                },
            ),
    {
        let context = QueryContext { name, qtype, qclass, client, client_identity: identity };
        match self.reference.decide(context) {
            Some(found) => Some(found),
            None => {
                let plain = normalize(name);
                self.regex_rules.regex_decision(plain.as_str(), qtype, qclass, client)
            },
        }
    }
}

impl Policy {
    /// Decides on a query by the rules, with the label that the client's address carries.
    pub fn decision(&self, query: &DnsQuery, client: Option<IpAddr>) -> (r: Option<Decision>)
        requires
            self.wf(),
        ensures
            r == rule_decision(
                self.tables@,
                query.name@,
                query.qtype,
                query.qclass,
                client,
                label_of(self.tables@.client_identities, client),
            ),
    {
        let label = client_identity_for(&self.tables.client_identities, client);
        match &label {
            Some(text) => self.tables.decide(
                query.name.as_str(),
                query.qtype,
                query.qclass,
                client,
                Some(text.as_str()),
            ),
            None => self.tables.decide(query.name.as_str(), query.qtype, query.qclass, client, None),
        }
    }

    /// The action on a query that was read in place, from an unknown client.
    pub fn action_for_view(&self, query: QueryView<'_>) -> (r: Action)
        requires
            self.wf(),
        ensures
            r == view_action(
                self.tables@,
                dotted(query.name.wire@),
                query.qtype,
                query.qclass,
                None,
                None,
            ),
    {
        self.action_for_view_with_client_identity(query, None, None)
    }

    /// The action on a query that was read in place.
    pub fn action_for_view_with_client(&self, query: QueryView<'_>, client: Option<IpAddr>) -> (r:
        Action)
        requires
            self.wf(),
        ensures
            r == view_action(
                self.tables@,
                dotted(query.name.wire@),
                query.qtype,
                query.qclass,
                client,
                None,
            ),
    {
        self.action_for_view_with_client_identity(query, client, None)
    }

    /// The action on a query that was read in place, with a label that the listener gives.
    pub fn action_for_view_with_client_identity(
        &self,
        query: QueryView<'_>,
        client: Option<IpAddr>,
        client_identity: Option<&str>,
    ) -> (r: Action)
        requires
            self.wf(),
        ensures
            r == view_action(
                self.tables@,
                dotted(query.name.wire@),
                query.qtype,
                query.qclass,
                client,
                match client_identity {
                    Some(label) => Some(label@),
                    None => None,
                },
            ),
    {
        if deny_client(&self.tables.admission.deny_client_cidrs, client) {
            return Action::Reject;
        }
        if !self.tables.filtering_enabled {
            return Action::Pass;
        }
        let name = query.name.to_dotted();
        if !self.tables.rules_configured() {
            if !matches_domains(&self.tables.legacy_domains, name.as_str()) {
                return Action::Pass;
            }
            return legacy_action(self.tables.legacy_mode);
        }
        let resolved = match client_identity {
            Some(_) => None,
            None => client_identity_for(&self.tables.client_identities, client),
        };
        let label: Option<&str> = match client_identity {
            Some(text) => Some(text),
            None => match &resolved {
                Some(text) => Some(text.as_str()),
                None => None,
            },
        };
        match self.tables.decide(name.as_str(), query.qtype, query.qclass, client, label) {
            Some(found) => found.action,
            None => self.tables.default_action,
        }
    }
}

// ---- answers -------------------------------------------------------------------------

/// The answer within the limits.
pub open spec fn within(tables: TablesView, name: Seq<char>, answer: AnswerView) -> AnswerView {
    capped(tables.admission, tables.cache_config.max_ttl_secs, name, answer)
}

/// The local answer to a query, or an empty one.
pub open spec fn local_or_empty(tables: TablesView, name: Seq<char>, qtype: u16) -> AnswerView {
    match local_answer(tables.rewrites, name, qtype) {
        Some(answer) => answer,
        None => ok_answer(Seq::empty()),
    }
}

/// What an action answers by itself; nothing where the query is dropped or asked elsewhere.
pub open spec fn own_answer(
    tables: TablesView,
    honeypot: HoneypotConfig,
    name: Seq<char>,
    qtype: u16,
    action: Action,
) -> Option<AnswerView> {
    match action {
        Action::Ignore | Action::Drop | Action::Forward => None,
        Action::Nxdomain => Some(no_such_name()),
        Action::Reject => Some(refusal()),
        Action::Sink => Some(ok_answer(Seq::empty())),
        Action::Honeypot => Some(honeypot_answer(name, qtype, honeypot)),
        Action::Pass | Action::Observe => Some(local_or_empty(tables, name, qtype)),
    }
}

/// What a mode answers to a listed name.
pub open spec fn mode_answer(
    honeypot: HoneypotConfig,
    name: Seq<char>,
    qtype: u16,
    mode: Mode,
) -> Option<AnswerView> {
    match mode {
        Mode::Ignore => None,
        Mode::Nxdomain => Some(no_such_name()),
        Mode::Honeypot => Some(honeypot_answer(name, qtype, honeypot)),
    }
}

/// What the plain list of domains answers.
pub open spec fn legacy_answer(
    tables: TablesView,
    honeypot: HoneypotConfig,
    name: Seq<char>,
    qtype: u16,
) -> Option<AnswerView> {
    if !listed(tables.legacy_domains, name) {
        Some(ok_answer(Seq::empty()))
    } else {
        mode_answer(honeypot, name, qtype, tables.legacy_mode)
    }
}

/// The answer to a query without asking anybody, within the limits.
pub open spec fn evaluation(
    tables: TablesView,
    honeypot: HoneypotConfig,
    name: Seq<char>,
    qtype: u16,
    qclass: u16,
) -> Option<AnswerView> {
    if !admitted(tables.admission, name, qtype, qclass) {
        Some(refusal())
    } else {
        let answer = if !tables.filtering_enabled {
            Some(local_or_empty(tables, name, qtype))
        } else if !has_rules(tables) {
            if listed(tables.legacy_domains, name) {
                mode_answer(honeypot, name, qtype, tables.legacy_mode)
            } else {
                Some(local_or_empty(tables, name, qtype))
            }
        } else {
            own_answer(
                tables,
                honeypot,
                name,
                qtype,
                rule_action(tables, name, qtype, qclass, None, None),
            )
        };
        match answer {
            Some(full) => Some(within(tables, name, full)),
            None => None,
        }
    }
}

fn empty_answer() -> (r: DnsAnswer)
    ensures
        r@ == ok_answer(Seq::empty()),
{
    let r = DnsAnswer::ok(Vec::new());
    assert(r@.records =~= Seq::<RecordView>::empty());
    r
}

impl Tables {
    fn answer_locally(&self, query: &DnsQuery) -> (r: DnsAnswer)
        requires
            self.parts_wf(),
        ensures
            r@ == local_or_empty(self@, query.name@, query.qtype),
    {
        match self.rewrites.answer(query) {
            Some(answer) => answer,
            None => empty_answer(),
        }
    }

    /// The answer within the limits.
    pub fn cap(&self, name: &str, answer: &DnsAnswer) -> (r: DnsAnswer)
        ensures
            r@ == within(self@, name@, answer@),
    {
        cap_answer(&self.admission, self.cache.config.max_ttl_secs, name, answer)
    }
}

impl Policy {
    /// Whether a name is on the plain list of domains.
    pub fn matches(&self, name: &str) -> (r: bool)
        ensures
            r == listed(self.tables@.legacy_domains, name@),
    {
        matches_domains(&self.tables.legacy_domains, name)
    }

    /// What the plain list of domains answers.
    pub fn evaluate_legacy(&self, query: &DnsQuery) -> (r: Option<DnsAnswer>)
        ensures
            match legacy_answer(self.tables@, self.config.honeypot, query.name@, query.qtype) {
                Some(answer) => r is Some && r->0@ == answer,
                None => r is None,
            },
    {
        if !self.matches(query.name.as_str()) {
            return Some(empty_answer());
        }
        match self.tables.legacy_mode {
            Mode::Ignore => None,
            Mode::Nxdomain => Some(DnsAnswer::name_error()),
            Mode::Honeypot => Some(
                synthetic_honeypot_answer(query.name.as_str(), query.qtype, &self.config.honeypot),
            ),
        }
    }

    /// What an action answers by itself.
    pub fn answer_for(&self, query: &DnsQuery, action: Action) -> (r: Option<DnsAnswer>)
        requires
            self.wf(),
        ensures
            match own_answer(
                self.tables@,
                self.config.honeypot,
                query.name@,
                query.qtype,
                action,
            ) {
                Some(answer) => r is Some && r->0@ == answer,
                None => r is None,
            },
    {
        match action {
            Action::Ignore | Action::Drop | Action::Forward => None,
            Action::Nxdomain => Some(DnsAnswer::name_error()),
            Action::Reject => Some(refused_answer()),
            Action::Sink => Some(empty_answer()),
            Action::Honeypot => Some(
                synthetic_honeypot_answer(query.name.as_str(), query.qtype, &self.config.honeypot),
            ),
            Action::Pass | Action::Observe => Some(self.tables.answer_locally(query)),
        }
    }

    /// The answer to a query without asking anybody.
    pub fn evaluate(&self, query: &DnsQuery) -> (r: Option<DnsAnswer>)
        requires
            self.wf(),
        ensures
            match evaluation(
                self.tables@,
                self.config.honeypot,
                query.name@,
                query.qtype,
                query.qclass,
            ) {
                Some(answer) => r is Some && r->0@ == answer,
                None => r is None,
            },
    {
        if !admission_allows(&self.tables.admission, query) {
            return Some(refused_answer());
        }
        let answer = if !self.tables.filtering_enabled {
            Some(self.tables.answer_locally(query))
        } else if !self.tables.rules_configured() {
            if self.matches(query.name.as_str()) {
                self.evaluate_legacy(query)
            } else {
                Some(self.tables.answer_locally(query))
            }
        } else {
            let action = match self.decision(query, None) {
                Some(found) => found.action,
                None => self.tables.default_action,
            };
            self.answer_for(query, action)
        };
        match answer {
            Some(full) => Some(self.tables.cap(query.name.as_str(), &full)),
            None => None,
        }
    }
}

// ---- laws ----------------------------------------------------------------------------

/// A client on the denylist is refused whatever the rules say.
pub proof fn denied_clients_are_refused(
    tables: TablesView,
    name: Seq<char>,
    qtype: u16,
    qclass: u16,
    client: IpAddr,
    given: Option<Seq<char>>,
)
    requires
        on_deny_list(tables.admission.deny_client_cidrs, Some(client)),
    ensures
        view_action(tables, name, qtype, qclass, Some(client), given) == Action::Reject,
{
}

/// Case and trailing dots of a name do not change the action.
pub proof fn spelling_does_not_change_the_action(
    tables: TablesView,
    name: Seq<char>,
    other: Seq<char>,
    qtype: u16,
    qclass: u16,
    client: Option<IpAddr>,
    given: Option<Seq<char>>,
)
    requires
        normal(name) == normal(other),
    ensures
        view_action(tables, name, qtype, qclass, client, given) == view_action(
            tables,
            other,
            qtype,
            qclass,
            client,
            given,
        ),
{
}

/// A domain rule that decides comes before every rule with an expression.
pub proof fn domain_rules_come_first(
    tables: TablesView,
    name: Seq<char>,
    qtype: u16,
    qclass: u16,
    client: Option<IpAddr>,
    identity: Option<Seq<char>>,
)
    requires
        decision(
            tables.reference,
            ContextView { name: normal(name), qtype, qclass, client, client_identity: identity },
        ) is Some,
    ensures
        rule_decision(tables, name, qtype, qclass, client, identity) == decision(
            tables.reference,
            ContextView { name: normal(name), qtype, qclass, client, client_identity: identity },
        ),
{
}

/// With the filtering off, nothing is blocked: every admitted query gets its local answer or an
/// empty one.
pub proof fn unfiltered_queries_are_not_blocked(
    tables: TablesView,
    honeypot: HoneypotConfig,
    name: Seq<char>,
    qtype: u16,
    qclass: u16,
)
    requires
        !tables.filtering_enabled,
        admitted(tables.admission, name, qtype, qclass),
    ensures
        evaluation(tables, honeypot, name, qtype, qclass) == Some(
            within(tables, name, local_or_empty(tables, name, qtype)),
        ),
        forall|client: Option<IpAddr>, given: Option<Seq<char>>|
            !on_deny_list(tables.admission.deny_client_cidrs, client) ==> #[trigger] view_action(
                tables,
                name,
                qtype,
                qclass,
                client,
                given,
            ) == Action::Pass,
{
}

// ---- what is answered ----------------------------------------------------------------

/// An answer of a response code, without records.
pub open spec fn says_only(answer: Option<AnswerView>, rcode: u8) -> bool {
    answer is Some && answer->0.rcode == rcode && answer->0.records.len() == 0
}

/// What blocks a query is told by the response code and by no record: a name error is 3, a refusal
/// is 5, a sink is no error. A query that is dropped, ignored or forwarded has no answer of its own.
/// Where a query passes it has the local answer, or no error and no record.
pub proof fn actions_have_their_answers(
    tables: TablesView,
    honeypot: HoneypotConfig,
    name: Seq<char>,
    qtype: u16,
)
    ensures
        says_only(own_answer(tables, honeypot, name, qtype, Action::Nxdomain), 3),
        says_only(own_answer(tables, honeypot, name, qtype, Action::Reject), 5),
        says_only(own_answer(tables, honeypot, name, qtype, Action::Sink), 0),
        own_answer(tables, honeypot, name, qtype, Action::Drop) is None,
        own_answer(tables, honeypot, name, qtype, Action::Ignore) is None,
        own_answer(tables, honeypot, name, qtype, Action::Forward) is None,
        own_answer(tables, honeypot, name, qtype, Action::Pass) == own_answer(
            tables,
            honeypot,
            name,
            qtype,
            Action::Observe,
        ),
        local_answer(tables.rewrites, name, qtype) is Some ==> own_answer(
            tables,
            honeypot,
            name,
            qtype,
            Action::Pass,
        ) == local_answer(tables.rewrites, name, qtype),
        local_answer(tables.rewrites, name, qtype) is None ==> says_only(
            own_answer(tables, honeypot, name, qtype, Action::Pass),
            0,
        ),
{
}

/// A honeypot answers a query for an IPv4 or an IPv6 address with one record under the queried name:
/// the configured address of that family, with the configured time to live. To every other query it
/// answers no error and no record.
pub proof fn honeypots_answer_with_their_address(
    tables: TablesView,
    honeypot: HoneypotConfig,
    name: Seq<char>,
    qtype: u16,
)
    ensures
        ({
            let answer = own_answer(tables, honeypot, name, qtype, Action::Honeypot);
            let records = answer->0.records;
            &&& answer is Some && answer->0.rcode == 0
            &&& qtype != 1 && qtype != 28 ==> records.len() == 0
            &&& qtype == 1 || qtype == 28 ==> {
                &&& records.len() == 1
                &&& records[0].name == name
                &&& records[0].rtype == qtype
                &&& records[0].rclass == 1
                &&& records[0].ttl == honeypot.ttl
            }
            &&& qtype == 1 ==> records[0].rdata.len() == 4 && honeypot.ipv4 == records[0].rdata[0]
                * 0x1000000 + records[0].rdata[1] * 0x10000 + records[0].rdata[2] * 0x100
                + records[0].rdata[3]
            &&& qtype == 28 ==> records[0].rdata.len() == 16 && honeypot.ipv6
                == crate::buckets::network_number(records[0].rdata)
        }),
{
    crate::dhcp::octets_round_trip(honeypot.ipv4);
    crate::dhcp::octets_are_in_network_order(honeypot.ipv4, crate::dhcp::octets(honeypot.ipv4));
    crate::buckets::ipv6_data_spells_the_address(honeypot.ipv6);
}

/// A listed name is answered in a mode as the action of that mode answers it, and each mode stands
/// for the action of its name.
pub proof fn modes_answer_as_their_actions(
    tables: TablesView,
    honeypot: HoneypotConfig,
    name: Seq<char>,
    qtype: u16,
    mode: Mode,
)
    ensures
        mode_answer(honeypot, name, qtype, mode) == own_answer(
            tables,
            honeypot,
            name,
            qtype,
            mode_action(mode),
        ),
        mode == Mode::Nxdomain <==> mode_action(mode) == Action::Nxdomain,
        mode == Mode::Ignore <==> mode_action(mode) == Action::Ignore,
        mode == Mode::Honeypot <==> mode_action(mode) == Action::Honeypot,
        mode == Mode::Nxdomain ==> says_only(mode_answer(honeypot, name, qtype, mode), 3),
        mode == Mode::Ignore ==> mode_answer(honeypot, name, qtype, mode) is None,
{
}

/// Where only the plain list of domains is configured, an admitted query for a listed name is
/// answered in the name of the mode: with a name error and no record, not at all, or with the
/// honeypot's answer within the limits. A query for any other name has its local answer, or no error
/// and no record.
pub proof fn the_plain_list_blocks_its_names(
    tables: TablesView,
    honeypot: HoneypotConfig,
    name: Seq<char>,
    qtype: u16,
    qclass: u16,
)
    requires
        tables.filtering_enabled,
        tables.base_rules.len() == 0,
        tables.blocklist_rules.len() == 0,
        tables.regex_rules.len() == 0,
        admitted(tables.admission, name, qtype, qclass),
    ensures
        ({
            let told = evaluation(tables, honeypot, name, qtype, qclass);
            let asked = view_action(tables, name, qtype, qclass, None, None);
            let plain = legacy_answer(tables, honeypot, name, qtype);
            if listed(tables.legacy_domains, name) {
                &&& tables.legacy_mode == Mode::Nxdomain ==> says_only(told, 3) && says_only(plain, 3)
                    && asked == Action::Nxdomain
                &&& tables.legacy_mode == Mode::Ignore ==> told is None && plain is None && asked
                    == Action::Ignore
                &&& tables.legacy_mode == Mode::Honeypot ==> told is Some && told->0.rcode == 0
                    && plain == own_answer(tables, honeypot, name, qtype, Action::Honeypot) && told->0
                    == within(tables, name, plain->0) && asked == Action::Honeypot
            } else {
                &&& asked == Action::Pass
                &&& says_only(plain, 0)
                &&& local_answer(tables.rewrites, name, qtype) is None ==> says_only(told, 0)
                &&& local_answer(tables.rewrites, name, qtype) is Some ==> told == Some(
                    within(tables, name, local_answer(tables.rewrites, name, qtype)->0),
                )
            }
        }),
{
    let none = no_such_name();
    let empty = ok_answer(Seq::empty());
    crate::admission::answers_without_records_are_kept(
        tables.admission,
        tables.cache_config.max_ttl_secs,
        name,
        none,
    );
    crate::admission::answers_without_records_are_kept(
        tables.admission,
        tables.cache_config.max_ttl_secs,
        name,
        empty,
    );
}

/// Where rules are configured, an admitted query is answered as the action of the deciding rule
/// answers it, or that of the default action where no rule decides: a name error, a refusal or a
/// sink without a record, and nothing where the query is dropped, ignored or forwarded. A query that
/// is not admitted is refused.
pub proof fn rules_answer_with_their_action(
    tables: TablesView,
    honeypot: HoneypotConfig,
    name: Seq<char>,
    qtype: u16,
    qclass: u16,
)
    requires
        tables.filtering_enabled,
        tables.base_rules.len() > 0 || tables.blocklist_rules.len() > 0
            || tables.regex_rules.len() > 0,
    ensures
        ({
            let told = evaluation(tables, honeypot, name, qtype, qclass);
            let verdict = rule_decision(tables, name, qtype, qclass, None, None);
            let action = match verdict {
                Some(found) => found.action,
                None => tables.default_action,
            };
            if !admitted(tables.admission, name, qtype, qclass) {
                says_only(told, 5)
            } else {
                &&& action == Action::Nxdomain ==> says_only(told, 3)
                &&& action == Action::Reject ==> says_only(told, 5)
                &&& action == Action::Sink ==> says_only(told, 0)
                &&& action == Action::Drop || action == Action::Ignore || action == Action::Forward
                    ==> told is None
                &&& action == Action::Honeypot ==> told == Some(
                    within(
                        tables,
                        name,
                        own_answer(tables, honeypot, name, qtype, Action::Honeypot)->0,
                    ),
                )
                &&& action == Action::Pass || action == Action::Observe ==> match local_answer(
                    tables.rewrites,
                    name,
                    qtype,
                ) {
                    Some(answer) => told == Some(within(tables, name, answer)),
                    None => says_only(told, 0),
                }
            }
        }),
{
    let limits = tables.admission;
    let ttl = tables.cache_config.max_ttl_secs;
    crate::admission::answers_without_records_are_kept(limits, ttl, name, no_such_name());
    crate::admission::answers_without_records_are_kept(limits, ttl, name, refusal());
    crate::admission::answers_without_records_are_kept(
        limits,
        ttl,
        name,
        ok_answer(Seq::empty()),
    );
}

/// A listener takes the action of the rule that decides for its client, with the label that it gives
/// or else the one of the client's address, and the default action where no rule decides.
pub proof fn listeners_take_the_action_of_the_rule(
    tables: TablesView,
    name: Seq<char>,
    qtype: u16,
    qclass: u16,
    client: Option<IpAddr>,
    given: Option<Seq<char>>,
)
    requires
        tables.filtering_enabled,
        tables.base_rules.len() > 0 || tables.blocklist_rules.len() > 0
            || tables.regex_rules.len() > 0,
        !on_deny_list(tables.admission.deny_client_cidrs, client),
    ensures
        ({
            let label = if given is Some {
                given
            } else {
                label_of(tables.client_identities, client)
            };
            let query = ContextView {
                name: normal(name),
                qtype,
                qclass,
                client,
                client_identity: label,
            };
            let taken = view_action(tables, name, qtype, qclass, client, given);
            match decision(tables.reference, query) {
                Some(found) => taken == found.action,
                None => match regex_verdict(tables.regex_rules, normal(name), qtype, qclass, client) {
                    Some(found) => taken == found.action,
                    None => taken == tables.default_action,
                },
            }
        }),
{
}

} // verus!
