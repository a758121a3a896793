//! Serving a request, step by step. The program around the library acquires the slots, asks the
//! upstream breaker and the resolver, and hands in what came of it; each step here says what is
//! answered, what is observed and what to do next. Budgets count microseconds, the cache counts
//! milliseconds.
use vstd::prelude::*;
use vstd::string::*;

use crate::admission::{admission_allows, admitted, answer_bytes, answers_within_the_limits_are_kept,
    answers_without_records_are_kept, deny_client, on_deny_list};
use crate::cache::{find_entry_is_exact, fresh_answer, fresh_seconds, key_of_query, keys_are_distinct,
    no_record_is_served_beyond_its_time, servable_answer, with_answer, CacheKey, EntryView};
use crate::config::{HoneypotConfig, Mode};
use crate::country::{client_place, is_denied, is_observed};
use crate::decisions::{action_index, action_place, legacy_answer, legacy_action, mode_action,
    own_answer, rule_action, view_action, within};
use crate::dns::{failure, honeypot_answer, no_such_name, ok_answer, refusal, refused_answer,
    server_failure_answer, AnswerView, DnsAnswer, DnsQuery, RecordView};
use crate::identities::label_of;
use crate::legacy::listed;
use crate::names::wire_bytes;
use crate::net::IpAddr;
use crate::policy::Action;
use crate::recording::{decision_record, incident_end, incident_expiry, logged, redacted,
    DecisionRecord, IncidentRecord, LogEvent, LogKind};
use crate::rewrites::local_answer;
use crate::runtime::Policy;
use crate::state::{has_rules, TablesView};
use crate::tables::ClientPermit;
use crate::text::texts;
use crate::traffic::{abuse_question, global_abuse_question, global_rate_question, global_violation,
    permit_asked, rate_question, violation, TrafficView};
use crate::upstream::{failure_cause, response_fault, upstream_failure_cause,
    validate_upstream_response, UpstreamFailure, UpstreamResponse};

verus! {

/// The texts of a list of causes.
pub open spec fn cause_views(causes: Seq<&'static str>) -> Seq<Seq<char>> {
    Seq::new(causes.len(), |i: int| causes[i]@)
}

// ---- counting decisions --------------------------------------------------------------

/// The counters after an action was taken.
pub open spec fn tallied(counts: Seq<u64>, action: Action) -> Seq<u64> {
    let at = action_place(action);
    counts.update(
        at,
        if counts[at] == u64::MAX {
            0
        } else {
            (counts[at] + 1) as u64
        },
    )
}

impl Policy {
    /// Counts an action.
    pub fn observe(&mut self, action: Action)
        requires
            old(self).wf(),
        ensures
            final(self).decision_counts@ == tallied(old(self).decision_counts@, action),
            final(self).config == old(self).config,
            final(self).tables == old(self).tables,
            final(self).traffic == old(self).traffic,
            final(self).query_log == old(self).query_log,
            final(self).wf(),
    {
        let at: usize = action_index(action);
        let count: u64 = self.decision_counts[at];
        let next: u64 = if count == u64::MAX {
            0
        } else {
            count + 1
        };
        self.decision_counts.set(at, next);
    }
}

// ---- entering ------------------------------------------------------------------------

/// What came of a request on admission.
pub struct EntryOutcome {
    /// Why it was turned away, and what else went wrong on the way.
    pub causes: Seq<Seq<char>>,
    /// The country that is observed.
    pub country: Option<Seq<char>>,
    /// The serial of the permit that the client holds now.
    pub permit: Option<u64>,
    /// The cause of an incident that began.
    pub incident: Option<Seq<char>>,
    /// The answer to a request that is turned away.
    pub turned_away: Option<AnswerView>,
}

pub open spec fn turned_away(
    causes: Seq<Seq<char>>,
    permit: Option<u64>,
    answer: AnswerView,
) -> EntryOutcome {
    EntryOutcome { causes, country: None, permit, incident: None, turned_away: Some(answer) }
}

/// Behind the budgets: the country and the form of the query.
pub open spec fn form_gate(
    tables: TablesView,
    client: Option<IpAddr>,
    name: Seq<char>,
    qtype: u16,
    qclass: u16,
    permit: Option<u64>,
) -> EntryOutcome {
    if tables.country is Some && client is Some && is_denied(tables.country->0, client->0) {
        turned_away(seq!["country_policy_denied"@], permit, refusal())
    } else {
        let country = if tables.country is Some && client is Some && is_observed(
            tables.country->0,
            client->0,
        ) {
            Some(client_place(tables.country->0, client->0)->0.country)
        } else {
            None
        };
        if admitted(tables.admission, name, qtype, qclass) {
            EntryOutcome {
                causes: Seq::empty(),
                country,
                permit,
                incident: None,
                turned_away: None,
            }
        } else {
            EntryOutcome {
                causes: seq!["admission_rejected"@],
                country,
                permit,
                incident: None,
                turned_away: Some(refusal()),
            }
        }
    }
}

/// The budgets and breakers for all clients together.
pub open spec fn shared_gate(
    tables: TablesView,
    traffic: TrafficView,
    client: Option<IpAddr>,
    name: Seq<char>,
    qtype: u16,
    qclass: u16,
    permit: Option<u64>,
    now: u64,
) -> (EntryOutcome, TrafficView) {
    let limits = tables.admission;
    let (calm, asked) = global_abuse_question(traffic, limits, now);
    if !calm {
        (turned_away(seq!["global_abuse_breaker_open"@], permit, failure()), asked)
    } else {
        let (within_rate, spent) = global_rate_question(asked, limits, now);
        if !within_rate {
            let (opened, recorded) = global_violation(spent, limits, now);
            (
                turned_away(
                    if opened {
                        seq![
                            "global_rate_overflow"@,
                            "global_abuse_breaker_open"@,
                            "global_rate_overflow"@,
                        ]
                    } else {
                        seq!["global_rate_overflow"@]
                    },
                    permit,
                    failure(),
                ),
                recorded,
            )
        } else {
            (form_gate(tables, client, name, qtype, qclass, permit), spent)
        }
    }
}

/// The breakers and the budget of the client.
pub open spec fn client_gate(
    tables: TablesView,
    traffic: TrafficView,
    client: Option<IpAddr>,
    name: Seq<char>,
    qtype: u16,
    qclass: u16,
    permit: Option<u64>,
    now: u64,
) -> (EntryOutcome, TrafficView) {
    let limits = tables.admission;
    let (calm, asked) = abuse_question(traffic, limits, client, now);
    if !calm {
        (turned_away(seq!["client_abuse_breaker_open"@], permit, failure()), asked)
    } else {
        let (within_rate, spent) = rate_question(asked, limits, client, now);
        if !within_rate {
            let (opened, recorded) = violation(spent, limits, client, now);
            (
                EntryOutcome {
                    causes: if opened {
                        seq!["client_rate_overflow"@, "client_abuse_breaker_open"@]
                    } else {
                        seq!["client_rate_overflow"@]
                    },
                    country: None,
                    permit,
                    incident: if opened {
                        Some("client_rate_overflow"@)
                    } else {
                        None
                    },
                    turned_away: Some(failure()),
                },
                recorded,
            )
        } else {
            shared_gate(tables, spent, client, name, qtype, qclass, permit, now)
        }
    }
}

/// What comes of a request on admission, and the traffic behind it. `slot` says whether there was
/// a slot for one more request.
pub open spec fn entered(
    tables: TablesView,
    traffic: TrafficView,
    slot: bool,
    client: Option<IpAddr>,
    name: Seq<char>,
    qtype: u16,
    qclass: u16,
    now: u64,
) -> (EntryOutcome, TrafficView) {
    if !slot {
        (turned_away(seq!["admission_overflow"@], None, failure()), traffic)
    } else if on_deny_list(tables.admission.deny_client_cidrs, client) {
        (turned_away(seq!["client_denylist"@], None, refusal()), traffic)
    } else {
        match client {
            None => client_gate(tables, traffic, client, name, qtype, qclass, None, now),
            Some(address) => match permit_asked(traffic, tables.admission, address, now) {
                (None, asked) => (
                    turned_away(seq!["client_admission_overflow"@], None, failure()),
                    asked,
                ),
                (Some(serial), asked) => client_gate(
                    tables,
                    asked,
                    client,
                    name,
                    qtype,
                    qclass,
                    Some(serial),
                    now,
                ),
            },
        }
    }
}

/// What came of a request on admission.
pub struct Entry {
    pub causes: Vec<&'static str>,
    pub country: Option<String>,
    /// To be handed back when the request is done.
    pub permit: Option<ClientPermit>,
    pub incident: Option<&'static str>,
    pub turned_away: Option<DnsAnswer>,
}

impl Entry {
    pub open spec fn is(&self, outcome: EntryOutcome, client: Option<IpAddr>) -> bool {
        &&& cause_views(self.causes@) == outcome.causes
        &&& match outcome.country {
            Some(code) => self.country is Some && self.country->0@ == code,
            None => self.country is None,
        }
        &&& match outcome.permit {
            Some(serial) => client is Some && self.permit == Some(
                ClientPermit { client: client->0, serial },
            ),
            None => self.permit is None,
        }
        &&& match outcome.incident {
            Some(cause) => self.incident is Some && self.incident->0@ == cause,
            None => self.incident is None,
        }
        &&& match outcome.turned_away {
            Some(answer) => self.turned_away is Some && self.turned_away->0@ == answer,
            None => self.turned_away is None,
        }
    }
}

fn one_cause(cause: &'static str) -> (r: Vec<&'static str>)
    ensures
        cause_views(r@) == seq![cause@],
{
    let mut r: Vec<&'static str> = Vec::new();
    r.push(cause);
    assert(cause_views(r@) =~= seq![cause@]);
    r
}

fn two_causes(first: &'static str, second: &'static str) -> (r: Vec<&'static str>)
    ensures
        cause_views(r@) == seq![first@, second@],
{
    let mut r: Vec<&'static str> = Vec::new();
    r.push(first);
    r.push(second);
    assert(cause_views(r@) =~= seq![first@, second@]);
    r
}

fn three_causes(first: &'static str, second: &'static str, third: &'static str) -> (r: Vec<
    &'static str,
>)
    ensures
        cause_views(r@) == seq![first@, second@, third@],
{
    let mut r: Vec<&'static str> = Vec::new();
    r.push(first);
    r.push(second);
    r.push(third);
    assert(cause_views(r@) =~= seq![first@, second@, third@]);
    r
}

fn turn_away(cause: &'static str, permit: Option<ClientPermit>, answer: DnsAnswer) -> (r: Entry)
    ensures
        cause_views(r.causes@) == seq![cause@],
        r.country is None,
        r.permit == permit,
        r.incident is None,
        r.turned_away is Some,
        r.turned_away->0@ == answer@,
{
    Entry {
        causes: one_cause(cause),
        country: None,
        permit,
        incident: None,
        turned_away: Some(answer),
    }
}

/// The serial of a permit.
pub open spec fn serial_of(permit: Option<ClientPermit>) -> Option<u64> {
    match permit {
        Some(value) => Some(value.serial),
        None => None,
    }
}

/// A permit is one of the client.
pub open spec fn permit_of(permit: Option<ClientPermit>, client: Option<IpAddr>) -> bool {
    permit is Some ==> client == Some(permit->0.client)
}

impl Policy {
    fn pass_form_gate(
        &self,
        client: Option<IpAddr>,
        query: &DnsQuery,
        permit: Option<ClientPermit>,
    ) -> (r: Entry)
        requires
            self.wf(),
            permit_of(permit, client),
        ensures
            r.is(
                form_gate(
                    self.tables@,
                    client,
                    query.name@,
                    query.qtype,
                    query.qclass,
                    serial_of(permit),
                ),
                client,
            ),
    {
        let mut observed: Option<String> = None;
        match (&self.tables.country_policy, client) {
            (Some(map), Some(address)) => {
                if map.denied(address) {
                    return turn_away("country_policy_denied", permit, refused_answer());
                }
                if map.observed(address) {
                    observed = map.country_for(address);
                }
            },
            _ => {},
        }
        let no_causes: Vec<&'static str> = Vec::new();
        assert(cause_views(no_causes@) =~= Seq::<Seq<char>>::empty());
        if admission_allows(&self.tables.admission, query) {
            Entry { causes: no_causes, country: observed, permit, incident: None, turned_away: None }
        } else {
            Entry {
                causes: one_cause("admission_rejected"),
                country: observed,
                permit,
                incident: None,
                turned_away: Some(refused_answer()),
            }
        }
    }

    fn pass_shared_gate(
        &mut self,
        client: Option<IpAddr>,
        query: &DnsQuery,
        permit: Option<ClientPermit>,
        now: u64,
    ) -> (r: Entry)
        requires
            old(self).wf(),
            permit_of(permit, client),
        ensures
            ({
                let (outcome, next) = shared_gate(
                    old(self).tables@,
                    old(self).traffic@,
                    client,
                    query.name@,
                    query.qtype,
                    query.qclass,
                    serial_of(permit),
                    now,
                );
                r.is(outcome, client) && final(self).traffic@ == next
            }),
            final(self).only_traffic(old(self)),
            final(self).wf(),
    {
        if !self.traffic.allow_global_abuse(&self.tables.admission, now) {
            return turn_away("global_abuse_breaker_open", permit, server_failure_answer());
        }
        if !self.traffic.allow_global_rate(&self.tables.admission, now) {
            let opened = self.traffic.record_global_abuse(&self.tables.admission, now);
            let mut entry = turn_away("global_rate_overflow", permit, server_failure_answer());
            if opened {
                entry.causes = three_causes(
                    "global_rate_overflow",
                    "global_abuse_breaker_open",
                    "global_rate_overflow",
                );
            }
            return entry;
        }
        self.pass_form_gate(client, query, permit)
    }

    fn pass_client_gate(
        &mut self,
        client: Option<IpAddr>,
        query: &DnsQuery,
        permit: Option<ClientPermit>,
        now: u64,
    ) -> (r: Entry)
        requires
            old(self).wf(),
            permit_of(permit, client),
        ensures
            ({
                let (outcome, next) = client_gate(
                    old(self).tables@,
                    old(self).traffic@,
                    client,
                    query.name@,
                    query.qtype,
                    query.qclass,
                    serial_of(permit),
                    now,
                );
                r.is(outcome, client) && final(self).traffic@ == next
            }),
            final(self).only_traffic(old(self)),
            final(self).wf(),
    {
        if !self.traffic.allow_client_abuse(&self.tables.admission, client, now) {
            return turn_away("client_abuse_breaker_open", permit, server_failure_answer());
        }
        if !self.traffic.allow_client_rate(&self.tables.admission, client, now) {
            let opened = self.traffic.record_client_abuse(&self.tables.admission, client, now);
            let mut entry = turn_away("client_rate_overflow", permit, server_failure_answer());
            if opened {
                entry.causes = two_causes("client_rate_overflow", "client_abuse_breaker_open");
                entry.incident = Some("client_rate_overflow");
            }
            return entry;
        }
        self.pass_shared_gate(client, query, permit, now)
    }

    /// Lets a request in or turns it away. `slot` says whether there was a slot for one more
    /// request.
    pub fn enter(&mut self, slot: bool, client: Option<IpAddr>, query: &DnsQuery, now: u64) -> (r:
        Entry)
        requires
            old(self).wf(),
        ensures
            ({
                let (outcome, next) = entered(
                    old(self).tables@,
                    old(self).traffic@,
                    slot,
                    client,
                    query.name@,
                    query.qtype,
                    query.qclass,
                    now,
                );
                &&& r.is(outcome, client)
                &&& final(self).traffic@ == next
                &&& final(self).decision_counts@ == (if outcome.turned_away is Some {
                    tallied(old(self).decision_counts@, Action::Reject)
                } else {
                    old(self).decision_counts@
                })
            }),
            final(self).config == old(self).config,
            final(self).tables == old(self).tables,
            final(self).query_log == old(self).query_log,
            final(self).wf(),
    {
        let entry = self.pass_gates(slot, client, query, now);
        if entry.turned_away.is_some() {
            self.observe(Action::Reject);
        }
        entry
    }

    fn pass_gates(&mut self, slot: bool, client: Option<IpAddr>, query: &DnsQuery, now: u64) -> (r:
        Entry)
        requires
            old(self).wf(),
        ensures
            ({
                let (outcome, next) = entered(
                    old(self).tables@,
                    old(self).traffic@,
                    slot,
                    client,
                    query.name@,
                    query.qtype,
                    query.qclass,
                    now,
                );
                r.is(outcome, client) && final(self).traffic@ == next
            }),
            final(self).only_traffic(old(self)),
            final(self).wf(),
    {
        if !slot {
            return turn_away("admission_overflow", None, server_failure_answer());
        }
        if deny_client(&self.tables.admission.deny_client_cidrs, client) {
            return turn_away("client_denylist", None, refused_answer());
        }
        let permit = self.traffic.try_client_admission(&self.tables.admission, client, now);
        if client.is_some() && permit.is_none() {
            return turn_away("client_admission_overflow", None, server_failure_answer());
        }
        self.pass_client_gate(client, query, permit, now)
    }

    /// Hands back the permit of a request that is done.
    pub fn leave(&mut self, permit: ClientPermit)
        requires
            old(self).wf(),
        ensures
            final(self).traffic@ == (TrafficView {
                admissions: crate::traffic::handed_back(old(self).traffic@.admissions, permit),
                ..old(self).traffic@
            }),
            final(self).only_traffic(old(self)),
            final(self).wf(),
    {
        self.traffic.release(permit);
    }
}

// ---- choosing the action -------------------------------------------------------------

/// The action on an admitted query. `selected` is what a listener has chosen already, and
/// `upstream` says whether there is a resolver to ask. Without rules, and without a resolver,
/// there is none for a name that is not listed.
pub open spec fn chosen(
    tables: TablesView,
    selected: Option<Action>,
    upstream: bool,
    name: Seq<char>,
    qtype: u16,
    qclass: u16,
    client: Option<IpAddr>,
) -> Option<Action> {
    match selected {
        Some(action) => Some(action),
        None => if !tables.filtering_enabled {
            Some(Action::Pass)
        } else if !has_rules(tables) {
            if listed(tables.legacy_domains, name) {
                Some(mode_action(tables.legacy_mode))
            } else if upstream {
                Some(tables.default_action)
            } else {
                None
            }
        } else {
            Some(
                rule_action(
                    tables,
                    name,
                    qtype,
                    qclass,
                    client,
                    label_of(tables.client_identities, client),
                ),
            )
        },
    }
}

impl Policy {
    /// Chooses the action on an admitted query.
    pub fn choose_action(
        &self,
        selected: Option<Action>,
        upstream: bool,
        query: &DnsQuery,
        client: Option<IpAddr>,
    ) -> (r: Option<Action>)
        requires
            self.wf(),
        ensures
            r == chosen(
                self.tables@,
                selected,
                upstream,
                query.name@,
                query.qtype,
                query.qclass,
                client,
            ),
    {
        match selected {
            Some(action) => {
                return Some(action);
            },
            None => {},
        }
        if !self.tables.filtering_enabled {
            return Some(Action::Pass);
        }
        if !self.tables.rules_configured() {
            if self.matches(query.name.as_str()) {
                return Some(legacy_action(self.tables.legacy_mode));
            }
            if upstream {
                return Some(self.tables.default_action);
            }
            return None;
        }
        match self.decision(query, client) {
            Some(found) => Some(found.action),
            None => Some(self.tables.default_action),
        }
    }
}

// ---- answering -----------------------------------------------------------------------

/// What to do next.
pub enum NextView {
    /// Send this answer with this status.
    Reply { status: u16, answer: AnswerView },
    /// Get a slot for the resolver.
    Acquire,
    /// Ask the breaker of the resolver.
    AskBreaker,
    /// Fail: the breaker is open.
    BreakerOpen,
    /// Fail: the exchange with the resolver failed.
    ExchangeFailed,
}

pub enum Next {
    Reply { status: u16, answer: DnsAnswer },
    Acquire,
    AskBreaker,
    BreakerOpen,
    ExchangeFailed,
}

impl View for Next {
    type V = NextView;

    open spec fn view(&self) -> NextView {
        match *self {
            Next::Reply { status, answer } => NextView::Reply { status, answer: answer@ },
            Next::Acquire => NextView::Acquire,
            Next::AskBreaker => NextView::AskBreaker,
            Next::BreakerOpen => NextView::BreakerOpen,
            Next::ExchangeFailed => NextView::ExchangeFailed,
        }
    }
}

/// What is told of one step: why something failed, what the cache did, the time to live of what
/// was kept (and whether it has records), and what the breaker learns.
pub struct TurnView {
    pub cause: Option<Seq<char>>,
    pub cache: Option<Seq<char>>,
    pub kept_secs: Option<(bool, int)>,
    pub breaker: Option<bool>,
    pub next: NextView,
}

pub struct Turn {
    pub cause: Option<&'static str>,
    pub cache: Option<&'static str>,
    pub kept_secs: Option<(bool, u64)>,
    pub breaker: Option<bool>,
    pub next: Next,
}

pub open spec fn word(text: Option<&'static str>) -> Option<Seq<char>> {
    match text {
        Some(value) => Some(value@),
        None => None,
    }
}

impl View for Turn {
    type V = TurnView;

    open spec fn view(&self) -> TurnView {
        TurnView {
            cause: word(self.cause),
            cache: word(self.cache),
            kept_secs: match self.kept_secs {
                Some((records, secs)) => Some((records, secs as int)),
                None => None,
            },
            breaker: self.breaker,
            next: self.next@,
        }
    }
}

/// A step that only says what to do next.
pub open spec fn plain_turn(next: NextView) -> TurnView {
    TurnView { cause: None, cache: None, kept_secs: None, breaker: None, next }
}

fn plain(next: Next) -> (r: Turn)
    ensures
        r@ == plain_turn(next@),
{
    Turn { cause: None, cache: None, kept_secs: None, breaker: None, next }
}

pub open spec fn reply(tables: TablesView, name: Seq<char>, answer: AnswerView) -> NextView {
    NextView::Reply { status: 200, answer: within(tables, name, answer) }
}

/// The reply that carries nothing.
pub open spec fn silence() -> NextView {
    NextView::Reply { status: 204, answer: ok_answer(Seq::empty()) }
}

pub open spec fn asks_elsewhere(action: Option<Action>) -> bool {
    action == Some(Action::Pass) || action == Some(Action::Observe) || action == Some(
        Action::Forward,
    )
}

pub open spec fn or_pass(action: Option<Action>) -> Action {
    match action {
        Some(value) => value,
        None => Action::Pass,
    }
}

/// What an admitted query comes to before anybody is asked, and whether the action is done with.
pub open spec fn local_step(
    tables: TablesView,
    honeypot: HoneypotConfig,
    action: Option<Action>,
    name: Seq<char>,
    qtype: u16,
) -> (NextView, bool) {
    let local = local_answer(tables.rewrites, name, qtype);
    let rewritable = action == Some(Action::Pass) || action == Some(Action::Observe) || action
        is None;
    if rewritable && local is Some {
        (reply(tables, name, local->0), true)
    } else if asks_elsewhere(action) {
        (NextView::Acquire, false)
    } else {
        let outcome = if !has_rules(tables) {
            legacy_answer(tables, honeypot, name, qtype)
        } else {
            match action {
                Some(value) => own_answer(tables, honeypot, name, qtype, value),
                None => Some(ok_answer(Seq::empty())),
            }
        };
        (
            match outcome {
                Some(answer) => reply(tables, name, answer),
                None => silence(),
            },
            true,
        )
    }
}

fn empty_answer() -> (r: DnsAnswer)
    ensures
        r@ == ok_answer(Seq::empty()),
{
    let r = DnsAnswer::ok(Vec::new());
    assert(r@.records =~= Seq::<RecordView>::empty());
    r
}

/// The action was counted, and nothing else changed.
pub open spec fn only_counted(before: Policy, after: Policy, action: Action) -> bool {
    &&& after.decision_counts@ == tallied(before.decision_counts@, action)
    &&& after.config == before.config
    &&& after.tables == before.tables
    &&& after.traffic == before.traffic
    &&& after.query_log == before.query_log
}

impl Policy {
    fn reply_with(&self, query: &DnsQuery, answer: &DnsAnswer) -> (r: Next)
        ensures
            r@ == reply(self.tables@, query.name@, answer@),
    {
        Next::Reply { status: 200, answer: self.tables.cap(query.name.as_str(), answer) }
    }

    /// Answers an admitted query, or says that the resolver is to be asked.
    pub fn answer_step(&mut self, query: &DnsQuery, action: Option<Action>) -> (r: Next)
        requires
            old(self).wf(),
        ensures
            ({
                let (next, done) = local_step(
                    old(self).tables@,
                    old(self).config.honeypot,
                    action,
                    query.name@,
                    query.qtype,
                );
                &&& r@ == next
                &&& if done {
                    only_counted(*old(self), *final(self), or_pass(action))
                } else {
                    *final(self) == *old(self)
                }
            }),
            final(self).wf(),
    {
        let counted = match action {
            Some(value) => value,
            None => Action::Pass,
        };
        let rewritable = match action {
            Some(Action::Pass) | Some(Action::Observe) | None => true,
            _ => false,
        };
        if rewritable {
            match self.tables.rewrites.answer(query) {
                Some(answer) => {
                    self.observe(counted);
                    return self.reply_with(query, &answer);
                },
                None => {},
            }
        }
        match action {
            Some(Action::Pass) | Some(Action::Observe) | Some(Action::Forward) => {
                return Next::Acquire;
            },
            _ => {},
        }
        let outcome = if !self.tables.rules_configured() {
            self.evaluate_legacy(query)
        } else {
            match action {
                Some(value) => self.answer_for(query, value),
                None => Some(empty_answer()),
            }
        };
        self.observe(counted);
        match outcome {
            Some(answer) => self.reply_with(query, &answer),
            None => Next::Reply { status: 204, answer: empty_answer() },
        }
    }
}

// ---- asking the resolver -------------------------------------------------------------

/// Whether there is a slot for the resolver.
#[derive(Clone, Copy, Debug, PartialEq, Eq, Structural)]
pub enum UpstreamSlot {
    Unconfigured,
    Busy,
    Granted,
}

/// What follows when a slot was asked for, and whether the action is done with.
pub open spec fn slot_step(
    tables: TablesView,
    action: Action,
    slot: UpstreamSlot,
    key: crate::cache::KeyView,
    name: Seq<char>,
    now_ms: u64,
) -> (TurnView, bool) {
    match slot {
        UpstreamSlot::Unconfigured => (
            TurnView {
                cause: if action == Action::Forward {
                    Some("upstream_unconfigured"@)
                } else {
                    None
                },
                ..plain_turn(silence())
            },
            true,
        ),
        UpstreamSlot::Busy => (
            TurnView { cause: Some("upstream_overflow"@), ..plain_turn(silence()) },
            true,
        ),
        UpstreamSlot::Granted => match fresh_answer(tables.cache, key, now_ms as int) {
            Some(answer) => (
                TurnView {
                    cache: Some("fresh_hit"@),
                    ..plain_turn(reply(tables, name, answer))
                },
                true,
            ),
            None => (
                TurnView { cache: Some("miss"@), ..plain_turn(NextView::AskBreaker) },
                false,
            ),
        },
    }
}

/// What follows when the breaker is open: an answer that may still be served, or a failure.
pub open spec fn open_breaker_step(
    tables: TablesView,
    key: crate::cache::KeyView,
    name: Seq<char>,
    now_ms: u64,
) -> TurnView {
    match servable_answer(tables.cache, key, now_ms as int) {
        Some(answer) => TurnView {
            cache: Some("stale_hit"@),
            ..plain_turn(reply(tables, name, answer))
        },
        None => TurnView {
            cause: Some("upstream_circuit_open"@),
            ..plain_turn(NextView::BreakerOpen)
        },
    }
}

/// Answers that are kept: those that say what is there, and that nothing is there.
pub open spec fn keepable(answer: AnswerView) -> bool {
    answer.rcode == 0 || answer.rcode == 3
}

/// What follows a response of the resolver, and what the cache holds then.
pub open spec fn response_step(
    tables: TablesView,
    reject_private: bool,
    response: UpstreamResponse,
    name: Seq<char>,
    qtype: u16,
    qclass: u16,
    now_ms: u64,
) -> (TurnView, Seq<EntryView>) {
    match response_fault(
        response,
        name,
        qtype,
        qclass,
        tables.admission.max_response_records,
        reject_private,
    ) {
        Some(cause) => (
            TurnView {
                cause: Some(cause),
                breaker: Some(false),
                ..plain_turn(NextView::Reply { status: 200, answer: failure() })
            },
            tables.cache,
        ),
        None => {
            let answer = response.answer@;
            let key = key_of_query(name, qtype, qclass);
            (
                TurnView {
                    kept_secs: if keepable(answer) {
                        Some(
                            (
                                answer.records.len() > 0,
                                fresh_seconds(answer, tables.cache_config),
                            ),
                        )
                    } else {
                        None
                    },
                    breaker: Some(true),
                    ..plain_turn(reply(tables, name, answer))
                },
                if keepable(answer) {
                    with_answer(tables.cache, key, answer, tables.cache_config, now_ms as int)
                } else {
                    tables.cache
                },
            )
        },
    }
}

/// What follows an exchange that failed: an answer that may still be served, or a failure.
pub open spec fn failed_step(
    tables: TablesView,
    failed: UpstreamFailure,
    key: crate::cache::KeyView,
    name: Seq<char>,
    now_ms: u64,
) -> TurnView {
    match servable_answer(tables.cache, key, now_ms as int) {
        Some(answer) => TurnView {
            cache: Some("stale_hit"@),
            breaker: Some(false),
            ..plain_turn(reply(tables, name, answer))
        },
        None => TurnView {
            cause: Some(failure_cause(failed)),
            breaker: Some(false),
            ..plain_turn(NextView::ExchangeFailed)
        },
    }
}

impl Policy {
    /// Goes on when a slot for the resolver was asked for.
    pub fn slot_asked(&mut self, query: &DnsQuery, action: Action, slot: UpstreamSlot, now_ms: u64) -> (r:
        Turn)
        requires
            old(self).wf(),
        ensures
            ({
                let (turn, done) = slot_step(
                    old(self).tables@,
                    action,
                    slot,
                    key_of_query(query.name@, query.qtype, query.qclass),
                    query.name@,
                    now_ms,
                );
                &&& r@ == turn
                &&& if done {
                    only_counted(*old(self), *final(self), action)
                } else {
                    *final(self) == *old(self)
                }
            }),
            final(self).wf(),
    {
        match slot {
            UpstreamSlot::Unconfigured => {
                let mut turn = plain(Next::Reply { status: 204, answer: empty_answer() });
                if action == Action::Forward {
                    turn.cause = Some("upstream_unconfigured");
                }
                self.observe(action);
                turn
            },
            UpstreamSlot::Busy => {
                let mut turn = plain(Next::Reply { status: 204, answer: empty_answer() });
                turn.cause = Some("upstream_overflow");
                self.observe(action);
                turn
            },
            UpstreamSlot::Granted => {
                let key = CacheKey::from_query(query);
                match self.tables.cache.fresh(&key, now_ms) {
                    Some(answer) => {
                        let mut turn = plain(self.reply_with(query, &answer));
                        turn.cache = Some("fresh_hit");
                        self.observe(action);
                        turn
                    },
                    None => {
                        let mut turn = plain(Next::AskBreaker);
                        turn.cache = Some("miss");
                        turn
                    },
                }
            },
        }
    }

    /// Goes on when the breaker of the resolver is open.
    pub fn breaker_open(&mut self, query: &DnsQuery, action: Action, now_ms: u64) -> (r: Turn)
        requires
            old(self).wf(),
        ensures
            r@ == open_breaker_step(
                old(self).tables@,
                key_of_query(query.name@, query.qtype, query.qclass),
                query.name@,
                now_ms,
            ),
            only_counted(*old(self), *final(self), action),
            final(self).wf(),
    {
        let key = CacheKey::from_query(query);
        let turn = match self.tables.cache.stale_answer(&key, now_ms) {
            Some(answer) => {
                let mut turn = plain(self.reply_with(query, &answer));
                turn.cache = Some("stale_hit");
                turn
            },
            None => {
                let mut turn = plain(Next::BreakerOpen);
                turn.cause = Some("upstream_circuit_open");
                turn
            },
        };
        self.observe(action);
        turn
    }

    /// Goes on when the resolver answered.
    pub fn responded(
        &mut self,
        query: &DnsQuery,
        action: Action,
        response: &UpstreamResponse,
        now_ms: u64,
    ) -> (r: Turn)
        requires
            old(self).wf(),
        ensures
            ({
                let (turn, cache) = response_step(
                    old(self).tables@,
                    old(self).config.security.reject_private_upstream_addresses,
                    *response,
                    query.name@,
                    query.qtype,
                    query.qclass,
                    now_ms,
                );
                &&& r@ == turn
                &&& final(self).tables@ == (TablesView { cache, ..old(self).tables@ })
            }),
            final(self).decision_counts@ == tallied(old(self).decision_counts@, action),
            final(self).config == old(self).config,
            final(self).traffic == old(self).traffic,
            final(self).query_log == old(self).query_log,
            final(self).wf(),
    {
        self.observe(action);
        match validate_upstream_response(
            query,
            response,
            self.tables.admission.max_response_records,
            self.config.security.reject_private_upstream_addresses,
        ) {
            Err(cause) => {
                let mut turn = plain(
                    Next::Reply { status: 200, answer: server_failure_answer() },
                );
                turn.cause = Some(cause);
                turn.breaker = Some(false);
                turn
            },
            Ok(()) => {
                let mut turn = plain(self.reply_with(query, &response.answer));
                turn.breaker = Some(true);
                if response.answer.rcode == 0 || response.answer.rcode == 3 {
                    let secs: u64 = crate::cache::kept_seconds(
                        &response.answer,
                        &self.tables.cache.config,
                    );
                    turn.kept_secs = Some((response.answer.records.len() > 0, secs));
                    let key = CacheKey::from_query(query);
                    let _ = self.tables.cache.insert(key, response.answer.copied(), now_ms);
                }
                turn
            },
        }
    }

    /// Goes on when the exchange with the resolver failed.
    pub fn exchange_failed(
        &mut self,
        query: &DnsQuery,
        action: Action,
        failed: UpstreamFailure,
        now_ms: u64,
    ) -> (r: Turn)
        requires
            old(self).wf(),
        ensures
            r@ == failed_step(
                old(self).tables@,
                failed,
                key_of_query(query.name@, query.qtype, query.qclass),
                query.name@,
                now_ms,
            ),
            only_counted(*old(self), *final(self), action),
            final(self).wf(),
    {
        let key = CacheKey::from_query(query);
        let turn = match self.tables.cache.stale_answer(&key, now_ms) {
            Some(answer) => {
                let mut turn = plain(self.reply_with(query, &answer));
                turn.cache = Some("stale_hit");
                turn.breaker = Some(false);
                turn
            },
            None => {
                let mut turn = plain(Next::ExchangeFailed);
                turn.cause = Some(upstream_failure_cause(failed));
                turn.breaker = Some(false);
                turn
            },
        };
        self.observe(action);
        turn
    }
}

// ---- keeping track -------------------------------------------------------------------

impl Policy {
    /// What is recorded of a decision; the log keeps it too where there is one.
    pub fn record_decision(&mut self, action: Action, qtype: u16, qclass: u16, now_ms: u64) -> (r:
        DecisionRecord)
        requires
            old(self).wf(),
        ensures
            r == redacted(action, qtype, qclass, old(self).tables@.redaction),
            match old(self).query_log {
                Some(log) => {
                    &&& final(self).query_log is Some
                    &&& final(self).query_log->0@ == logged(
                        log@,
                        (LogEvent { ts_ms: now_ms, kind: LogKind::Decision(r) }),
                        log.max_entries,
                        log.retention_ms,
                    )
                    &&& final(self).query_log->0.max_entries == log.max_entries
                    &&& final(self).query_log->0.retention_ms == log.retention_ms
                },
                None => final(self).query_log is None,
            },
            final(self).config == old(self).config,
            final(self).tables == old(self).tables,
            final(self).traffic == old(self).traffic,
            final(self).decision_counts == old(self).decision_counts,
            final(self).wf(),
    {
        let record = decision_record(
            action,
            qtype,
            qclass,
            self.tables.query_recording_redaction,
        );
        match self.query_log.take() {
            Some(log) => {
                let mut log = log;
                log.append_event(LogEvent { ts_ms: now_ms, kind: LogKind::Decision(record) });
                self.query_log = Some(log);
            },
            None => {},
        }
        record
    }

    /// Keeps an incident in the log where there is one. The result is when it ends, where it is
    /// to be recorded durably with its client.
    pub fn record_abuse_incident(&mut self, cause: &'static str, now_ms: u64) -> (r: Option<u64>)
        requires
            old(self).wf(),
        ensures
            ({
                let limits = old(self).tables@.admission;
                let end = incident_end(
                    now_ms,
                    limits.client_abuse_cooldown_secs,
                    limits.network_abuse_cooldown_secs,
                );
                &&& r == (if old(self).config.admission.ddos.persist_incidents {
                    Some(end)
                } else {
                    None
                })
                &&& match old(self).query_log {
                    Some(log) => {
                        &&& final(self).query_log is Some
                        &&& final(self).query_log->0@ == logged(
                            log@,
                            (LogEvent {
                                ts_ms: now_ms,
                                kind: LogKind::Incident(
                                    IncidentRecord { cause, expires_at_ms: end },
                                ),
                            }),
                            log.max_entries,
                            log.retention_ms,
                        )
                        &&& final(self).query_log->0.max_entries == log.max_entries
                        &&& final(self).query_log->0.retention_ms == log.retention_ms
                    },
                    None => final(self).query_log is None,
                }
            }),
            final(self).config == old(self).config,
            final(self).tables == old(self).tables,
            final(self).traffic == old(self).traffic,
            final(self).decision_counts == old(self).decision_counts,
            final(self).wf(),
    {
        let end: u64 = incident_expiry(
            now_ms,
            self.tables.admission.client_abuse_cooldown_secs,
            self.tables.admission.network_abuse_cooldown_secs,
        );
        match self.query_log.take() {
            Some(log) => {
                let mut log = log;
                log.append_event(
                    LogEvent {
                        ts_ms: now_ms,
                        kind: LogKind::Incident(IncidentRecord { cause, expires_at_ms: end }),
                    },
                );
                self.query_log = Some(log);
            },
            None => {},
        }
        if self.config.admission.ddos.persist_incidents {
            Some(end)
        } else {
            None
        }
    }
}

// ---- laws ----------------------------------------------------------------------------

/// A client on the denylist gets the refusal and touches no budget.
pub proof fn denied_clients_touch_no_budget(
    tables: TablesView,
    traffic: TrafficView,
    client: IpAddr,
    name: Seq<char>,
    qtype: u16,
    qclass: u16,
    now: u64,
)
    requires
        on_deny_list(tables.admission.deny_client_cidrs, Some(client)),
    ensures
        ({
            let (outcome, next) = entered(
                tables,
                traffic,
                true,
                Some(client),
                name,
                qtype,
                qclass,
                now,
            );
            next == traffic && outcome.turned_away == Some(refusal())
        }),
{
}

/// Whoever is turned away learns nothing: a cause goes with a refusal or a failure without
/// records.
pub open spec fn reveals_nothing(outcome: EntryOutcome) -> bool {
    &&& outcome.turned_away is Some <==> outcome.causes.len() > 0
    &&& outcome.turned_away is Some ==> outcome.turned_away->0 == refusal()
        || outcome.turned_away->0 == failure()
}

proof fn form_gate_reveals_nothing(
    tables: TablesView,
    client: Option<IpAddr>,
    name: Seq<char>,
    qtype: u16,
    qclass: u16,
    permit: Option<u64>,
)
    ensures
        reveals_nothing(form_gate(tables, client, name, qtype, qclass, permit)),
{
}

proof fn shared_gate_reveals_nothing(
    tables: TablesView,
    traffic: TrafficView,
    client: Option<IpAddr>,
    name: Seq<char>,
    qtype: u16,
    qclass: u16,
    permit: Option<u64>,
    now: u64,
)
    ensures
        reveals_nothing(shared_gate(tables, traffic, client, name, qtype, qclass, permit, now).0),
{
    form_gate_reveals_nothing(tables, client, name, qtype, qclass, permit);
}

proof fn client_gate_reveals_nothing(
    tables: TablesView,
    traffic: TrafficView,
    client: Option<IpAddr>,
    name: Seq<char>,
    qtype: u16,
    qclass: u16,
    permit: Option<u64>,
    now: u64,
)
    ensures
        reveals_nothing(client_gate(tables, traffic, client, name, qtype, qclass, permit, now).0),
{
    let limits = tables.admission;
    let (calm, asked) = abuse_question(traffic, limits, client, now);
    let (within_rate, spent) = rate_question(asked, limits, client, now);
    shared_gate_reveals_nothing(tables, spent, client, name, qtype, qclass, permit, now);
}

/// Whoever is turned away is answered with a refusal or a failure and no records.
pub proof fn turned_away_requests_learn_nothing(
    tables: TablesView,
    traffic: TrafficView,
    slot: bool,
    client: Option<IpAddr>,
    name: Seq<char>,
    qtype: u16,
    qclass: u16,
    now: u64,
)
    ensures
        reveals_nothing(entered(tables, traffic, slot, client, name, qtype, qclass, now).0),
{
    match client {
        None => {
            client_gate_reveals_nothing(
                tables,
                traffic,
                client,
                name,
                qtype,
                qclass,
                None,
                now,
            );
        },
        Some(address) => {
            let (serial, asked) = permit_asked(traffic, tables.admission, address, now);
            client_gate_reveals_nothing(
                tables,
                asked,
                client,
                name,
                qtype,
                qclass,
                serial,
                now,
            );
        },
    }
}

/// Only the actions that pass or forward ever ask the resolver.
pub proof fn blocked_queries_are_never_forwarded(
    tables: TablesView,
    honeypot: HoneypotConfig,
    action: Option<Action>,
    name: Seq<char>,
    qtype: u16,
)
    ensures
        local_step(tables, honeypot, action, name, qtype).0 is Acquire ==> asks_elsewhere(action),
{
}

/// A response that is not believed is answered with a failure, is not kept, and counts against
/// the resolver.
pub proof fn disbelieved_responses_are_not_kept(
    tables: TablesView,
    reject_private: bool,
    response: UpstreamResponse,
    name: Seq<char>,
    qtype: u16,
    qclass: u16,
    now_ms: u64,
)
    requires
        response_fault(
            response,
            name,
            qtype,
            qclass,
            tables.admission.max_response_records,
            reject_private,
        ) is Some,
    ensures
        ({
            let (turn, cache) = response_step(
                tables,
                reject_private,
                response,
                name,
                qtype,
                qclass,
                now_ms,
            );
            &&& cache == tables.cache
            &&& turn.breaker == Some(false)
            &&& turn.next == (NextView::Reply { status: 200, answer: failure() })
        }),
{
}

/// A listener that decides on a packet and a caller that leaves the decision to the policy come to
/// the same action, for every client that is not denied. Without rules they differ on names that
/// are not listed: the listener passes them, and the policy goes by the default action.
pub proof fn both_ways_decide_alike(
    tables: TablesView,
    upstream: bool,
    name: Seq<char>,
    qtype: u16,
    qclass: u16,
    client: Option<IpAddr>,
)
    requires
        !on_deny_list(tables.admission.deny_client_cidrs, client),
        tables.filtering_enabled && !has_rules(tables) ==> listed(tables.legacy_domains, name),
    ensures
        chosen(tables, None, upstream, name, qtype, qclass, client) == Some(
            view_action(tables, name, qtype, qclass, client, None),
        ),
{
}

// ---- what the resolver's answers come to ---------------------------------------------

/// An answer that is within the limits on records, bytes and times to live.
pub open spec fn fits(tables: TablesView, name: Seq<char>, answer: AnswerView) -> bool {
    let bytes = answer_bytes(name, answer.records);
    &&& answer.records.len() <= tables.admission.max_response_records
    &&& bytes <= tables.admission.max_response_bytes
    &&& bytes <= (16 + wire_bytes(name)) * tables.admission.max_response_amplification
    &&& tables.admission.max_response_bytes < usize::MAX
    &&& forall|i: int|
        0 <= i < answer.records.len() ==> (#[trigger] answer.records[i]).ttl
            <= tables.cache_config.max_ttl_secs
}

/// A response that is believed is passed on: its answer within the limits is what the client gets,
/// with the response code of the resolver, and an answer that is within them already is passed on as
/// it is. The resolver did well, and nothing went wrong.
pub proof fn believed_responses_are_passed_on(
    tables: TablesView,
    reject_private: bool,
    response: UpstreamResponse,
    name: Seq<char>,
    qtype: u16,
    qclass: u16,
    now_ms: u64,
)
    requires
        response_fault(
            response,
            name,
            qtype,
            qclass,
            tables.admission.max_response_records,
            reject_private,
        ) is None,
    ensures
        ({
            let turn = response_step(
                tables,
                reject_private,
                response,
                name,
                qtype,
                qclass,
                now_ms,
            ).0;
            let told = response.answer@;
            &&& turn.next matches NextView::Reply { status, answer } && {
                &&& status == 200
                &&& answer == crate::admission::capped(
                    tables.admission,
                    tables.cache_config.max_ttl_secs,
                    name,
                    told,
                )
                &&& answer.rcode == told.rcode
                &&& answer.authoritative == told.authoritative
                &&& answer.recursion_available == told.recursion_available
                &&& fits(tables, name, told) ==> answer == told
            }
            &&& turn.breaker == Some(true)
            &&& turn.cause is None
        }),
{
    let told = response.answer@;
    if fits(tables, name, told) {
        answers_within_the_limits_are_kept(
            tables.admission,
            tables.cache_config.max_ttl_secs,
            name,
            told,
        );
    }
}

/// What a believed response brought is remembered: while none of its records has expired, the next
/// query for the name gets the same reply without the resolver; for the stale time more it gets it
/// when the breaker is open or the exchange fails. The spelling of the name does not matter.
pub proof fn responses_are_served_again(
    tables: TablesView,
    reject_private: bool,
    response: UpstreamResponse,
    name: Seq<char>,
    qtype: u16,
    qclass: u16,
    now_ms: u64,
    later_ms: u64,
    action: Action,
    failed: UpstreamFailure,
)
    requires
        response_fault(
            response,
            name,
            qtype,
            qclass,
            tables.admission.max_response_records,
            reject_private,
        ) is None,
        response.answer@.rcode == 0 || response.answer@.rcode == 3,
        response.answer@.records.len() > 0,
        keys_are_distinct(tables.cache),
        tables.cache_config.max_entries > 0,
        now_ms <= later_ms,
    ensures
        ({
            let (turn, cache) = response_step(
                tables,
                reject_private,
                response,
                name,
                qtype,
                qclass,
                now_ms,
            );
            let after = TablesView { cache, ..tables };
            let key = key_of_query(name, qtype, qclass);
            let age = later_ms - now_ms;
            let records = response.answer@.records;
            let stale = 1000 * tables.cache_config.stale_ttl_secs;
            let limit = 1000 * tables.cache_config.max_ttl_secs;
            let again = slot_step(after, action, UpstreamSlot::Granted, key, name, later_ms).0;
            let open = open_breaker_step(after, key, name, later_ms);
            let broken = failed_step(after, failed, key, name, later_ms);
            &&& age < limit && (forall|i: int|
                0 <= i < records.len() ==> age < 1000 * (#[trigger] records[i]).ttl) ==> again.next
                == turn.next
            &&& (age >= limit || exists|i: int|
                0 <= i < records.len() && age >= 1000 * (#[trigger] records[i]).ttl) ==> again.next
                == NextView::AskBreaker
            &&& age < limit + stale && (forall|i: int|
                0 <= i < records.len() ==> age < 1000 * (#[trigger] records[i]).ttl + stale)
                ==> open.next == turn.next && broken.next == turn.next
            &&& (age >= limit + stale || exists|i: int|
                0 <= i < records.len() && age >= 1000 * (#[trigger] records[i]).ttl + stale)
                ==> open.next == NextView::BreakerOpen && broken.next == NextView::ExchangeFailed
        }),
{
    no_record_is_served_beyond_its_time(
        tables.cache,
        key_of_query(name, qtype, qclass),
        response.answer@,
        tables.cache_config,
        now_ms as int,
        later_ms as int,
    );
}

/// Only an answer without an error or a name error is remembered; every other response leaves the
/// cache as it was.
pub proof fn failures_are_not_remembered(
    tables: TablesView,
    reject_private: bool,
    response: UpstreamResponse,
    name: Seq<char>,
    qtype: u16,
    qclass: u16,
    now_ms: u64,
)
    requires
        response.answer@.rcode != 0,
        response.answer@.rcode != 3,
    ensures
        response_step(tables, reject_private, response, name, qtype, qclass, now_ms).1
            == tables.cache,
{
}

/// A query that has neither a resolver nor a slot for it gets nothing; without a remembered answer a
/// granted slot asks the breaker, and with an open breaker or a failed exchange there is a failure.
pub proof fn nothing_is_made_up(
    tables: TablesView,
    action: Action,
    name: Seq<char>,
    qtype: u16,
    qclass: u16,
    now_ms: u64,
    failed: UpstreamFailure,
)
    requires
        forall|i: int|
            0 <= i < tables.cache.len() ==> (#[trigger] tables.cache[i]).key != key_of_query(
                name,
                qtype,
                qclass,
            ),
    ensures
        ({
            let key = key_of_query(name, qtype, qclass);
            let none = slot_step(tables, action, UpstreamSlot::Unconfigured, key, name, now_ms).0;
            let busy = slot_step(tables, action, UpstreamSlot::Busy, key, name, now_ms).0;
            let free = slot_step(tables, action, UpstreamSlot::Granted, key, name, now_ms).0;
            &&& none.next matches NextView::Reply { status, answer } && status == 204
                && answer.records.len() == 0
            &&& busy.next matches NextView::Reply { status, answer } && status == 204
                && answer.records.len() == 0
            &&& free.next == NextView::AskBreaker
            &&& open_breaker_step(tables, key, name, now_ms).next == NextView::BreakerOpen
            &&& failed_step(tables, failed, key, name, now_ms).next == NextView::ExchangeFailed
            &&& failed_step(tables, failed, key, name, now_ms).breaker == Some(false)
        }),
{
    find_entry_is_exact(tables.cache, key_of_query(name, qtype, qclass));
}

// ---- what a query is answered before the resolver is asked ---------------------------

/// A reply of a status with a response code and no record.
pub open spec fn tells_only(next: NextView, status: u16, rcode: u8) -> bool {
    next matches NextView::Reply { status: sent, answer } && sent == status && answer.rcode == rcode
        && answer.records.len() == 0
}

/// An admitted query is answered by its action. With rules, a name error, a refusal and a sink are
/// told by their response code with no record, a drop and an ignored query get the reply that carries
/// nothing, and a query that passes, is observed or is forwarded goes on to the resolver, unless the
/// first two have a local answer.
pub proof fn queries_are_answered_by_their_action(
    tables: TablesView,
    honeypot: HoneypotConfig,
    name: Seq<char>,
    qtype: u16,
)
    requires
        tables.base_rules.len() > 0 || tables.blocklist_rules.len() > 0
            || tables.regex_rules.len() > 0,
    ensures
        ({
            let step = |action: Action| local_step(tables, honeypot, Some(action), name, qtype).0;
            let local = local_answer(tables.rewrites, name, qtype);
            let passed = match local {
                Some(answer) => NextView::Reply {
                    status: 200,
                    answer: within(tables, name, answer),
                },
                None => NextView::Acquire,
            };
            &&& tells_only(step(Action::Nxdomain), 200, 3)
            &&& tells_only(step(Action::Reject), 200, 5)
            &&& tells_only(step(Action::Sink), 200, 0)
            &&& tells_only(step(Action::Drop), 204, 0)
            &&& tells_only(step(Action::Ignore), 204, 0)
            &&& step(Action::Forward) == NextView::Acquire
            &&& step(Action::Pass) == passed
            &&& step(Action::Observe) == passed
            &&& step(Action::Honeypot) matches NextView::Reply { status, answer } && status == 200
                && answer == within(tables, name, honeypot_answer(name, qtype, honeypot))
        }),
{
    let limits = tables.admission;
    let ttl = tables.cache_config.max_ttl_secs;
    answers_without_records_are_kept(limits, ttl, name, no_such_name());
    answers_without_records_are_kept(limits, ttl, name, refusal());
    answers_without_records_are_kept(limits, ttl, name, ok_answer(Seq::empty()));
}

/// Without rules a query for a listed name that is not passed on gets the answer of the mode: a name
/// error, the reply that carries nothing, or the honeypot's answer; a name that is not listed, for
/// which there is neither a local answer nor a resolver, gets no error and no record.
pub proof fn listed_names_are_answered_by_the_mode(
    tables: TablesView,
    honeypot: HoneypotConfig,
    name: Seq<char>,
    qtype: u16,
    qclass: u16,
    client: Option<IpAddr>,
)
    requires
        tables.filtering_enabled,
        tables.base_rules.len() == 0,
        tables.blocklist_rules.len() == 0,
        tables.regex_rules.len() == 0,
    ensures
        ({
            let action = chosen(tables, None, false, name, qtype, qclass, client);
            let next = local_step(tables, honeypot, action, name, qtype).0;
            if listed(tables.legacy_domains, name) {
                &&& tables.legacy_mode == Mode::Nxdomain ==> tells_only(next, 200, 3)
                &&& tables.legacy_mode == Mode::Ignore ==> tells_only(next, 204, 0)
                &&& tables.legacy_mode == Mode::Honeypot ==> next == (NextView::Reply {
                    status: 200,
                    answer: within(tables, name, honeypot_answer(name, qtype, honeypot)),
                })
            } else {
                &&& action is None
                &&& local_answer(tables.rewrites, name, qtype) is None ==> tells_only(next, 200, 0)
                &&& chosen(tables, None, true, name, qtype, qclass, client) == Some(
                    tables.default_action,
                )
            }
        }),
{
    let limits = tables.admission;
    let ttl = tables.cache_config.max_ttl_secs;
    answers_without_records_are_kept(limits, ttl, name, no_such_name());
    answers_without_records_are_kept(limits, ttl, name, ok_answer(Seq::empty()));
}

/// What a listener has selected is what is done; with the filtering off every other query passes.
pub proof fn selected_actions_are_taken(
    tables: TablesView,
    selected: Action,
    upstream: bool,
    name: Seq<char>,
    qtype: u16,
    qclass: u16,
    client: Option<IpAddr>,
)
    ensures
        chosen(tables, Some(selected), upstream, name, qtype, qclass, client) == Some(selected),
        !tables.filtering_enabled ==> chosen(tables, None, upstream, name, qtype, qclass, client)
            == Some(Action::Pass),
{
}

/// Counting an action adds one to its own counter and leaves the eight others; no two actions share
/// a counter.
pub proof fn each_action_has_its_counter(counts: Seq<u64>, action: Action, other: Action)
    requires
        counts.len() == 9,
    ensures
        ({
            let at = action_place(action);
            let after = tallied(counts, action);
            &&& 0 <= at < 9
            &&& after.len() == 9
            &&& counts[at] < u64::MAX ==> after[at] == counts[at] + 1
            &&& forall|i: int| 0 <= i < 9 && i != at ==> #[trigger] after[i] == counts[i]
            &&& action != other ==> action_place(other) != at
        }),
{
}

// ---- who is let in -------------------------------------------------------------------

/// A refusal or a failure, without records.
pub open spec fn turns_away(outcome: EntryOutcome, rcode: u8) -> bool {
    outcome.turned_away is Some && outcome.turned_away->0.rcode == rcode
        && outcome.turned_away->0.records.len() == 0
}

/// Behind the budgets a request is let in exactly where its client is not of a denied country and
/// the query is admitted; otherwise it is refused. Where its client is observed, the country is told.
pub proof fn forms_and_countries_decide_last(
    tables: TablesView,
    client: Option<IpAddr>,
    name: Seq<char>,
    qtype: u16,
    qclass: u16,
    permit: Option<u64>,
)
    ensures
        ({
            let outcome = form_gate(tables, client, name, qtype, qclass, permit);
            let known = tables.country is Some && client is Some;
            let denied = known && is_denied(tables.country->0, client->0);
            &&& outcome.permit == permit
            &&& denied || !admitted(tables.admission, name, qtype, qclass) ==> turns_away(outcome, 5)
            &&& !denied && admitted(tables.admission, name, qtype, qclass)
                ==> outcome.turned_away is None && outcome.causes.len() == 0
            &&& !denied && known && is_observed(tables.country->0, client->0) ==> outcome.country
                == Some(client_place(tables.country->0, client->0)->0.country)
            &&& denied || !known || !is_observed(tables.country->0, client->0) ==> outcome.country
                is None
        }),
{
}

/// A request is let in only with a slot, from a client that is not denied, that has a permit, passes
/// its breakers and stays within its rate, while all clients together pass theirs and stay within
/// theirs, and only where its country and its form are accepted. Without a slot, a permit or a budget
/// it gets a failure; on the denylist, by its country or by its form it is refused.
pub proof fn every_gate_is_passed(
    tables: TablesView,
    traffic: TrafficView,
    slot: bool,
    client: IpAddr,
    name: Seq<char>,
    qtype: u16,
    qclass: u16,
    now: u64,
)
    ensures
        ({
            let limits = tables.admission;
            let outcome = entered(
                tables,
                traffic,
                slot,
                Some(client),
                name,
                qtype,
                qclass,
                now,
            ).0;
            let (permit, t0) = permit_asked(traffic, limits, client, now);
            let (calm, t1) = abuse_question(t0, limits, Some(client), now);
            let (paced, t2) = rate_question(t1, limits, Some(client), now);
            let (all_calm, t3) = global_abuse_question(t2, limits, now);
            let (all_paced, t4) = global_rate_question(t3, limits, now);
            let denied = on_deny_list(limits.deny_client_cidrs, Some(client));
            let open = calm && paced && all_calm && all_paced;
            &&& !slot ==> turns_away(outcome, 2) && outcome.permit is None
            &&& slot && denied ==> turns_away(outcome, 5) && outcome.permit is None
            &&& slot && !denied && permit is None ==> turns_away(outcome, 2) && outcome.permit
                is None
            &&& slot && !denied && permit is Some && !open ==> turns_away(outcome, 2)
                && outcome.permit == permit
            &&& slot && !denied && permit is Some && open ==> outcome == form_gate(
                tables,
                Some(client),
                name,
                qtype,
                qclass,
                permit,
            )
        }),
{
}

/// A client that asks faster than it may is turned away, and that is a violation: an incident begins
/// where it opens a breaker, and only there.
pub proof fn too_many_queries_are_violations(
    tables: TablesView,
    traffic: TrafficView,
    client: Option<IpAddr>,
    name: Seq<char>,
    qtype: u16,
    qclass: u16,
    permit: Option<u64>,
    now: u64,
)
    ensures
        ({
            let limits = tables.admission;
            let (calm, asked) = abuse_question(traffic, limits, client, now);
            let (paced, spent) = rate_question(asked, limits, client, now);
            let (opened, recorded) = violation(spent, limits, client, now);
            let (outcome, after) = client_gate(
                tables,
                traffic,
                client,
                name,
                qtype,
                qclass,
                permit,
                now,
            );
            &&& calm && !paced ==> turns_away(outcome, 2) && after == recorded && outcome.permit
                == permit && (outcome.incident is Some <==> opened) && (opened
                ==> outcome.causes.len() == 2) && (!opened ==> outcome.causes.len() == 1)
            &&& !calm ==> turns_away(outcome, 2) && after == asked && outcome.incident is None
        }),
{
}

} // verus!
