//! The listeners' side of a request: what a packet is taken for, what is sent back, and how
//! messages are cut out of a stream.
use vstd::prelude::*;
use vstd::slice::slice_subrange;
use vstd::string::*;

use crate::admission::amplified;
use crate::decisions::view_action;
use crate::dns::{encode_response, wire_response, AnswerView, DnsAnswer, DnsQuery, NameError};
use crate::fsm::{event_name, legal, query_of, state_name, step, DecisionState, Event,
    TransitionError};
use crate::net::IpAddr;
use crate::policy::Action;
use crate::query::{be16, dotted, headers_are_checked_first, parse_cause, query_flags, question, read_be16,
    valid_query_flags, QueryView, QuestionView, MAX_QUERY_BYTES};
use crate::recording::{logged, logs_stay_bounded, redacted, DecisionRecord, LogEvent, LogKind, QueryLog};
use crate::runtime::Policy;
use crate::serving::{cause_views, tallied};
use crate::state::TablesView;
use crate::traffic::{client_bytes_question, global_bytes_question, global_violation,
    network_bytes_question, violation, TrafficView};

verus! {

/// The longest message that is read from a stream.
pub const MAX_TCP_FRAME: usize = 4_096;

pub const UDP_HEADER: usize = 12;

pub const TCP_PREFIX: usize = 14;

pub const ORIGINAL_DESTINATION_METADATA: &'static str = "blackhole-original-destination";

// ---- recognising queries -------------------------------------------------------------

/// Whether the bytes begin like a query with one question.
pub open spec fn begins_query(prefix: Seq<u8>) -> bool {
    prefix.len() >= UDP_HEADER && query_flags(prefix) && be16(prefix, 4) == 1
}

pub fn is_query(prefix: &[u8]) -> (r: bool)
    ensures
        r == begins_query(prefix@),
{
    prefix.len() >= UDP_HEADER && valid_query_flags(prefix) && read_be16(prefix, 4) == 1
}

/// What the first bytes of a connection are taken for.
#[derive(Clone, Copy, Debug, PartialEq, Eq, Structural)]
pub enum ProbeVerdict {
    NeedMore { at_least: usize },
    Match { consumed: usize },
    No,
}

pub fn probe_udp(prefix: &[u8]) -> (r: ProbeVerdict)
    ensures
        r == (if prefix@.len() < UDP_HEADER {
            ProbeVerdict::NeedMore { at_least: UDP_HEADER }
        } else if begins_query(prefix@) {
            ProbeVerdict::Match { consumed: 0 }
        } else {
            ProbeVerdict::No
        }),
{
    if prefix.len() < UDP_HEADER {
        ProbeVerdict::NeedMore { at_least: UDP_HEADER }
    } else if is_query(prefix) {
        ProbeVerdict::Match { consumed: 0 }
    } else {
        ProbeVerdict::No
    }
}

pub fn probe_tcp(prefix: &[u8]) -> (r: ProbeVerdict)
    ensures
        r == (if prefix@.len() < TCP_PREFIX {
            ProbeVerdict::NeedMore { at_least: TCP_PREFIX }
        } else if UDP_HEADER <= be16(prefix@, 0) <= MAX_TCP_FRAME && begins_query(
            prefix@.skip(2),
        ) {
            ProbeVerdict::Match { consumed: 0 }
        } else {
            ProbeVerdict::No
        }),
{
    if prefix.len() < TCP_PREFIX {
        return ProbeVerdict::NeedMore { at_least: TCP_PREFIX };
    }
    let length: usize = read_be16(prefix, 0) as usize;
    assert(prefix@.subrange(2, prefix@.len() as int) == prefix@.skip(2));
    if length < UDP_HEADER || length > MAX_TCP_FRAME || !is_query(
        slice_subrange(prefix, 2, prefix.len()),
    ) {
        ProbeVerdict::No
    } else {
        ProbeVerdict::Match { consumed: 0 }
    }
}

/// A request as it is handed to the policy.
#[derive(Debug)]
pub struct DnsRequest {
    pub method: &'static str,
    pub metadata: Vec<(String, String)>,
    pub payload: DnsQuery,
    pub client: Option<IpAddr>,
}

/// Makes a request of a query. The destination that a captured packet had goes along.
pub fn request(
    query: DnsQuery,
    tcp: bool,
    client: Option<IpAddr>,
    original_destination: Option<&str>,
) -> (r: DnsRequest)
    ensures
        r.method@ == (if tcp {
            "DNS-TCP"@
        } else {
            "DNS"@
        }),
        r.payload == query,
        r.client == client,
        match original_destination {
            Some(destination) => {
                &&& r.metadata@.len() == 1
                &&& r.metadata@[0].0@ == ORIGINAL_DESTINATION_METADATA@
                &&& r.metadata@[0].1@ == destination@
            },
            None => r.metadata@.len() == 0,
        },
{
    let mut metadata: Vec<(String, String)> = Vec::new();
    match original_destination {
        Some(destination) => {
            metadata.push((ORIGINAL_DESTINATION_METADATA.to_owned(), destination.to_owned()));
        },
        None => {},
    }
    DnsRequest {
        method: if tcp {
            "DNS-TCP"
        } else {
            "DNS"
        },
        metadata,
        payload: query,
        client,
    }
}

// ---- taking a packet in --------------------------------------------------------------

/// What becomes of a packet.
pub enum IntakeStep<'a> {
    /// The message was in no state to take a packet.
    Illegal(TransitionError),
    /// Nothing is answered.
    Dropped,
    /// The query is to be served with the action.
    Serve { query: DnsQuery, action: Action, state: DecisionState<'a> },
}

pub struct Intake<'a> {
    pub causes: Vec<&'static str>,
    pub incident: Option<&'static str>,
    /// What is recorded of the decision.
    pub record: Option<DecisionRecord>,
    pub step: IntakeStep<'a>,
}

/// What a malformed packet of a client leads to: the causes, whether an incident began, and the
/// traffic behind it.
pub open spec fn malformed(
    tables: TablesView,
    traffic: TrafficView,
    client: Option<IpAddr>,
    cause: Seq<char>,
    now: u64,
) -> (Seq<Seq<char>>, bool, TrafficView) {
    let (opened, next) = violation(traffic, tables.admission, client, now);
    (
        if opened {
            seq![cause, "client_abuse_breaker_open"@, cause]
        } else {
            seq![cause]
        },
        opened,
        next,
    )
}

pub open spec fn log_with(log: Option<QueryLog>, after: Option<QueryLog>, event: LogEvent) -> bool {
    match log {
        Some(before) => {
            &&& after is Some
            &&& after->0@ == logged(before@, event, before.max_entries, before.retention_ms)
            &&& after->0.max_entries == before.max_entries
            &&& after->0.retention_ms == before.retention_ms
        },
        None => after is None,
    }
}

/// Whether nothing is answered to the action.
pub open spec fn silent(action: Action) -> bool {
    action == Action::Drop || action == Action::Ignore
}

/// The state of a message that is served with the action.
pub open spec fn serving_state(state: DecisionState<'_>, asked: QuestionView, action: Action) -> bool {
    &&& query_of(state) is Some
    &&& query_of(state)->0@ == asked
    &&& if action == Action::Forward {
        state is Forwarding
    } else {
        state is Matched && state->disposition == action
    }
}

/// What becomes of a query that was read: the decision is kept, and the query is dropped or
/// served.
pub open spec fn query_taken(
    before: Policy,
    after: Policy,
    r: Intake<'_>,
    asked: QuestionView,
    client: Option<IpAddr>,
    now_ms: u64,
) -> bool {
    let name = dotted(asked.wire);
    let action = view_action(before.tables@, name, asked.qtype, asked.qclass, client, None);
    let record = redacted(action, asked.qtype, asked.qclass, before.tables@.redaction);
    &&& r.causes@.len() == 0
    &&& r.incident is None
    &&& r.record == Some(record)
    &&& log_with(
        before.query_log,
        after.query_log,
        LogEvent { ts_ms: now_ms, kind: LogKind::Decision(record) },
    )
    &&& after.traffic == before.traffic
    &&& if silent(action) {
        r.step is Dropped && after.decision_counts@ == tallied(before.decision_counts@, action)
    } else {
        &&& after.decision_counts == before.decision_counts
        &&& r.step matches IntakeStep::Serve { query, action: chosen, state }
        &&& query.id == asked.id
        &&& query.recursion_desired == asked.recursion_desired
        &&& query.name@ == name
        &&& query.qtype == asked.qtype
        &&& query.qclass == asked.qclass
        &&& chosen == action
        &&& serving_state(state, asked, action)
    }
}

fn cause_list(first: &'static str) -> (r: Vec<&'static str>)
    ensures
        cause_views(r@) == seq![first@],
{
    let mut r: Vec<&'static str> = Vec::new();
    r.push(first);
    assert(cause_views(r@) =~= seq![first@]);
    r
}

fn no_causes() -> (r: Vec<&'static str>)
    ensures
        cause_views(r@) == Seq::<Seq<char>>::empty(),
        r@.len() == 0,
{
    let r: Vec<&'static str> = Vec::new();
    assert(cause_views(r@) =~= Seq::<Seq<char>>::empty());
    r
}

fn add_cause(causes: &mut Vec<&'static str>, cause: &'static str)
    ensures
        cause_views(final(causes)@) == cause_views(old(causes)@).push(cause@),
{
    let ghost before = cause_views(causes@);
    causes.push(cause);
    assert(cause_views(causes@) =~= before.push(cause@));
}

/// Advances a message that is being parsed to the state in which it is served.
fn advance<'a>(parsing: DecisionState<'a>, view: QueryView<'a>, action: Action) -> (r: Result<
    DecisionState<'a>,
    TransitionError,
>)
    requires
        parsing is Parsing,
    ensures
        r is Ok,
        serving_state(r->Ok_0, view@, action),
{
    let parsed = match parsing.transition(Event::Parsed(view)) {
        Ok(next) => next,
        Err(error) => {
            return Err(error);
        },
    };
    let matched = match parsed.transition(Event::Matched(action)) {
        Ok(next) => next,
        Err(error) => {
            return Err(error);
        },
    };
    if action == Action::Forward {
        matched.transition(Event::Forward)
    } else {
        Ok(matched)
    }
}

fn malformed_causes(cause: &'static str, opened: bool) -> (r: Vec<&'static str>)
    ensures
        cause_views(r@) == (if opened {
            seq![cause@, "client_abuse_breaker_open"@, cause@]
        } else {
            seq![cause@]
        }),
{
    let mut causes = cause_list(cause);
    if opened {
        add_cause(&mut causes, "client_abuse_breaker_open");
        add_cause(&mut causes, cause);
        assert(cause_views(causes@) =~= seq![cause@, "client_abuse_breaker_open"@, cause@]);
    }
    causes
}

impl Policy {
    /// Takes in a packet that is malformed.
    fn take_malformed(&mut self, client: Option<IpAddr>, cause: &'static str, now: u64) -> (r: (
        Vec<&'static str>,
        bool,
    ))
        requires
            old(self).wf(),
        ensures
            ({
                let (causes, opened, next) = malformed(
                    old(self).tables@,
                    old(self).traffic@,
                    client,
                    cause@,
                    now,
                );
                &&& cause_views(r.0@) == causes
                &&& r.1 == opened
                &&& final(self).traffic@ == next
            }),
            final(self).only_traffic(old(self)),
            final(self).wf(),
    {
        let opened = self.record_client_abuse(client, now);
        (malformed_causes(cause, opened), opened)
    }

    /// Decides on a query and keeps the decision.
    fn decide_and_record(&mut self, view: QueryView<'_>, client: Option<IpAddr>, now_ms: u64) -> (r: (
        Action,
        DecisionRecord,
    ))
        requires
            old(self).wf(),
        ensures
            r.0 == view_action(
                old(self).tables@,
                dotted(view.name.wire@),
                view.qtype,
                view.qclass,
                client,
                None,
            ),
            r.1 == redacted(r.0, view.qtype, view.qclass, old(self).tables@.redaction),
            log_with(
                old(self).query_log,
                final(self).query_log,
                (LogEvent { ts_ms: now_ms, kind: LogKind::Decision(r.1) }),
            ),
            final(self).config == old(self).config,
            final(self).tables == old(self).tables,
            final(self).traffic == old(self).traffic,
            final(self).decision_counts == old(self).decision_counts,
            final(self).wf(),
    {
        let action = self.action_for_view_with_client(view, client);
        let record = self.record_decision(action, view.qtype, view.qclass, now_ms);
        (action, record)
    }

    fn take_query<'a>(
        &mut self,
        parsing: DecisionState<'a>,
        view: QueryView<'a>,
        client: Option<IpAddr>,
        now_ms: u64,
    ) -> (r: Intake<'a>)
        requires
            old(self).wf(),
            parsing is Parsing,
        ensures
            query_taken(*old(self), *final(self), r, view@, client, now_ms),
            final(self).config == old(self).config,
            final(self).tables == old(self).tables,
            final(self).wf(),
    {
        let (action, record) = self.decide_and_record(view, client, now_ms);
        let query = view.to_owned();
        if action == Action::Drop || action == Action::Ignore {
            self.observe(action);
            return Intake {
                causes: no_causes(),
                incident: None,
                record: Some(record),
                step: IntakeStep::Dropped,
            };
        }
        let step = match advance(parsing, view, action) {
            Ok(state) => IntakeStep::Serve { query, action, state },
            Err(error) => IntakeStep::Illegal(error),
        };
        Intake { causes: no_causes(), incident: None, record: Some(record), step }
    }

    /// Takes in a packet: reads the query, decides on it, and keeps the decision.
    pub fn take_in<'a>(
        &mut self,
        state: DecisionState<'a>,
        packet: &'a [u8],
        client: Option<IpAddr>,
        now: u64,
        now_ms: u64,
    ) -> (r: Intake<'a>)
        requires
            old(self).wf(),
        ensures
            final(self).config == old(self).config,
            final(self).tables == old(self).tables,
            final(self).wf(),
            if !(state is Received) {
                &&& cause_views(r.causes@) == seq!["fsm_transition"@]
                &&& r.incident is None
                &&& r.record is None
                &&& r.step matches IntakeStep::Illegal(error)
                &&& error matches TransitionError::Illegal { state: name, event }
                &&& name@ == state_name(state)
                &&& event@ == "BeginParse"@
                &&& *final(self) == *old(self)
            } else {
                match question(packet@) {
                    Err(error) => {
                        let (causes, opened, next) = malformed(
                            old(self).tables@,
                            old(self).traffic@,
                            client,
                            parse_cause(error),
                            now,
                        );
                        &&& cause_views(r.causes@) == causes
                        &&& r.incident is Some <==> opened
                        &&& r.incident is Some ==> r.incident->0@ == parse_cause(error)
                        &&& r.record is None
                        &&& r.step is Dropped
                        &&& final(self).traffic@ == next
                        &&& final(self).query_log == old(self).query_log
                        &&& final(self).decision_counts == old(self).decision_counts
                    },
                    Ok(asked) => query_taken(*old(self), *final(self), r, asked, client, now_ms),
                }
            },
    {
        let parsing = match state.transition(Event::BeginParse) {
            Ok(next) => next,
            Err(error) => {
                return Intake {
                    causes: cause_list("fsm_transition"),
                    incident: None,
                    record: None,
                    step: IntakeStep::Illegal(error),
                };
            },
        };
        let view = match QueryView::parse(packet) {
            Ok(view) => view,
            Err(error) => {
                let cause = error.telemetry_cause();
                let (causes, opened) = self.take_malformed(client, cause, now);
                let incident = if opened {
                    Some(cause)
                } else {
                    None
                };
                return Intake { causes, incident, record: None, step: IntakeStep::Dropped };
            },
        };
        self.take_query(parsing, view, client, now_ms)
    }
}

// ---- sending an answer ---------------------------------------------------------------

/// What becomes of an answer.
pub struct Outcome {
    pub causes: Seq<Seq<char>>,
    /// The causes of the incidents that began with the client.
    pub incidents: Seq<Seq<char>>,
    /// Whether an incident of all clients together began.
    pub global_incident: bool,
    /// The bytes that are sent, where anything is.
    pub reply: Option<Seq<u8>>,
    pub error: Option<NameError>,
}

/// An outcome and a violation of the client behind it.
pub open spec fn with_violation(
    outcome: Outcome,
    tables: TablesView,
    traffic: TrafficView,
    client: Option<IpAddr>,
    cause: Seq<char>,
    now: u64,
) -> (Outcome, TrafficView) {
    let (opened, next) = violation(traffic, tables.admission, client, now);
    (
        Outcome {
            causes: if opened {
                outcome.causes.push(cause).push("client_abuse_breaker_open"@)
            } else {
                outcome.causes.push(cause)
            },
            incidents: if opened {
                outcome.incidents.push(cause)
            } else {
                outcome.incidents
            },
            ..outcome
        },
        next,
    )
}

/// An outcome and a violation against all clients behind it.
pub open spec fn with_global_violation(
    outcome: Outcome,
    tables: TablesView,
    traffic: TrafficView,
    cause: Seq<char>,
    now: u64,
) -> (Outcome, TrafficView) {
    let (opened, next) = global_violation(traffic, tables.admission, now);
    (
        Outcome {
            causes: if opened {
                outcome.causes.push(cause).push("global_abuse_breaker_open"@).push(cause)
            } else {
                outcome.causes.push(cause)
            },
            global_incident: opened,
            ..outcome
        },
        next,
    )
}

pub open spec fn nothing_sent() -> Outcome {
    Outcome {
        causes: Seq::empty(),
        incidents: Seq::empty(),
        global_incident: false,
        reply: None,
        error: None,
    }
}

/// The budgets that an encoded answer passes: that of all clients, that of the client, and that
/// of its network.
pub open spec fn budget_gate(
    start: Outcome,
    tables: TablesView,
    traffic: TrafficView,
    client: Option<IpAddr>,
    bytes: Seq<u8>,
    now: u64,
) -> (Outcome, TrafficView) {
    let limits = tables.admission;
    let size = bytes.len() as usize;
    let (shared, after_shared) = global_bytes_question(traffic, limits, size, now);
    if !shared {
        with_global_violation(start, tables, after_shared, "global_response_budget"@, now)
    } else {
        let (own, after_own) = client_bytes_question(after_shared, limits, client, size, now);
        if !own {
            with_violation(start, tables, after_own, client, "client_response_budget"@, now)
        } else {
            let (network, after_network) = network_bytes_question(
                after_own,
                limits,
                client,
                size,
                now,
            );
            if !network {
                with_violation(
                    start,
                    tables,
                    after_network,
                    client,
                    "network_response_budget"@,
                    now,
                )
            } else {
                (Outcome { reply: Some(bytes), ..start }, after_network)
            }
        }
    }
}

/// What becomes of an answer to a packet of the given length, and the traffic behind it.
pub open spec fn sent(
    tables: TablesView,
    traffic: TrafficView,
    packet_bytes: usize,
    id: u16,
    recursion_desired: bool,
    name: Seq<char>,
    qtype: u16,
    qclass: u16,
    answer: AnswerView,
    client: Option<IpAddr>,
    now: u64,
) -> (Outcome, TrafficView) {
    match wire_response(id, recursion_desired, name, qtype, qclass, answer) {
        Err(error) => (
            Outcome {
                causes: seq!["encode_failure"@],
                error: Some(error),
                ..nothing_sent()
            },
            traffic,
        ),
        Ok(bytes) => {
            let (start, after) = if amplified(
                packet_bytes,
                bytes.len() as usize,
                tables.admission.max_response_amplification,
            ) {
                with_violation(
                    nothing_sent(),
                    tables,
                    traffic,
                    client,
                    "response_amplification_cap"@,
                    now,
                )
            } else {
                (nothing_sent(), traffic)
            };
            budget_gate(start, tables, after, client, bytes, now)
        },
    }
}

/// What becomes of an answer.
pub struct Outgoing {
    pub causes: Vec<&'static str>,
    pub incidents: Vec<&'static str>,
    pub global_incident: bool,
    pub reply: Option<Vec<u8>>,
    pub error: Option<NameError>,
}

impl View for Outgoing {
    type V = Outcome;

    open spec fn view(&self) -> Outcome {
        Outcome {
            causes: cause_views(self.causes@),
            incidents: cause_views(self.incidents@),
            global_incident: self.global_incident,
            reply: match self.reply {
                Some(bytes) => Some(bytes@),
                None => None,
            },
            error: self.error,
        }
    }
}

impl Policy {
    /// Counts a violation of the client, and adds it to what becomes of an answer.
    fn count_violation(
        &mut self,
        out: Outgoing,
        client: Option<IpAddr>,
        cause: &'static str,
        now: u64,
    ) -> (r: Outgoing)
        requires
            old(self).wf(),
        ensures
            (r@, final(self).traffic@) == with_violation(
                out@,
                old(self).tables@,
                old(self).traffic@,
                client,
                cause@,
                now,
            ),
            final(self).only_traffic(old(self)),
            final(self).wf(),
    {
        let mut out = out;
        let opened = self.record_client_abuse(client, now);
        add_cause(&mut out.causes, cause);
        if opened {
            add_cause(&mut out.causes, "client_abuse_breaker_open");
            add_cause(&mut out.incidents, cause);
        }
        out
    }

    fn count_global_violation(&mut self, out: Outgoing, cause: &'static str, now: u64) -> (r: Outgoing)
        requires
            old(self).wf(),
        ensures
            (r@, final(self).traffic@) == with_global_violation(
                out@,
                old(self).tables@,
                old(self).traffic@,
                cause@,
                now,
            ),
            final(self).only_traffic(old(self)),
            final(self).wf(),
    {
        let mut out = out;
        let opened = self.record_global_abuse(now);
        add_cause(&mut out.causes, cause);
        if opened {
            add_cause(&mut out.causes, "global_abuse_breaker_open");
            add_cause(&mut out.causes, cause);
        }
        out.global_incident = opened;
        out
    }

    fn pass_budgets(&mut self, start: Outgoing, client: Option<IpAddr>, bytes: Vec<u8>, now: u64) -> (r:
        Outgoing)
        requires
            old(self).wf(),
        ensures
            (r@, final(self).traffic@) == budget_gate(
                start@,
                old(self).tables@,
                old(self).traffic@,
                client,
                bytes@,
                now,
            ),
            final(self).only_traffic(old(self)),
            final(self).wf(),
    {
        let size: usize = bytes.len();
        if !self.allow_global_response_bytes(size, now) {
            return self.count_global_violation(start, "global_response_budget", now);
        }
        if !self.allow_client_response_bytes(client, size, now) {
            return self.count_violation(start, client, "client_response_budget", now);
        }
        if !self.allow_network_response_bytes(client, size, now) {
            return self.count_violation(start, client, "network_response_budget", now);
        }
        let mut out = start;
        out.reply = Some(bytes);
        out
    }

    /// Encodes an answer and decides whether it is sent.
    pub fn send_out(
        &mut self,
        packet_bytes: usize,
        query: &DnsQuery,
        answer: &DnsAnswer,
        client: Option<IpAddr>,
        now: u64,
    ) -> (r: Outgoing)
        requires
            old(self).wf(),
        ensures
            (r@, final(self).traffic@) == sent(
                old(self).tables@,
                old(self).traffic@,
                packet_bytes,
                query.id,
                query.recursion_desired,
                query.name@,
                query.qtype,
                query.qclass,
                answer@,
                client,
                now,
            ),
            final(self).only_traffic(old(self)),
            final(self).wf(),
    {
        let start = Outgoing {
            causes: no_causes(),
            incidents: no_causes(),
            global_incident: false,
            reply: None,
            error: None,
        };
        let bytes = match encode_response(query, answer) {
            Ok(bytes) => bytes,
            Err(error) => {
                let mut out = start;
                out.causes = cause_list("encode_failure");
                out.error = Some(error);
                return out;
            },
        };
        let size: usize = bytes.len();
        let begun = if self.response_amplification_capped(packet_bytes, size) {
            self.count_violation(start, client, "response_amplification_cap", now)
        } else {
            start
        };
        self.pass_budgets(begun, client, bytes, now)
    }
}

// ---- streams -------------------------------------------------------------------------

/// Whether the bytes begin with a whole message behind its length.
pub open spec fn frame_ready(input: Seq<u8>) -> bool {
    input.len() >= 2 && input.len() >= 2 + be16(input, 0)
}

/// The first message.
pub open spec fn first_frame(input: Seq<u8>) -> Seq<u8> {
    input.subrange(2, 2 + be16(input, 0))
}

/// What follows the first message.
pub open spec fn behind_frame(input: Seq<u8>) -> Seq<u8> {
    input.skip(2 + be16(input, 0))
}

/// What reading from a stream led to.
#[derive(Clone, Copy, Debug, PartialEq, Eq, Structural)]
pub enum Absorbed {
    /// The stream has ended.
    Closed,
    /// More was sent than one message may have.
    Overflow,
    /// The message is not whole yet.
    More,
    Ready,
}

/// The bytes of a stream that were read and not yet used.
pub struct TcpFrames {
    pub input: Vec<u8>,
}

fn extend(out: &mut Vec<u8>, bytes: &[u8])
    ensures
        final(out)@ == old(out)@ + bytes@,
{
    let ghost start = out@;
    let mut i: usize = 0;
    assert(start + bytes@.take(0) =~= start);
    while i < bytes.len()
        invariant
            i <= bytes.len(),
            start == old(out)@,
            out@ == start + bytes@.take(i as int),
        decreases bytes.len() - i,
    {
        out.push(bytes[i]);
        i = i + 1;
        assert(out@ =~= start + bytes@.take(i as int));
    }
    assert(bytes@.take(i as int) =~= bytes@);
}

impl TcpFrames {
    pub open spec fn wf(&self) -> bool {
        self.input@.len() <= 2 + MAX_TCP_FRAME
    }

    pub fn new() -> (r: TcpFrames)
        ensures
            r.wf(),
            r.input@ == Seq::<u8>::empty(),
    {
        TcpFrames { input: Vec::new() }
    }

    /// Whether a whole message is there.
    pub fn is_ready(&self) -> (r: bool)
        ensures
            r == frame_ready(self.input@),
    {
        self.input.len() >= 2 && self.input.len() >= 2 + read_be16(&self.input, 0) as usize
    }

    /// Takes in what was read; nothing means that the stream has ended.
    pub fn absorb(&mut self, bytes: &[u8]) -> (r: Absorbed)
        requires
            old(self).wf(),
        ensures
            final(self).wf(),
            if bytes@.len() == 0 {
                r == Absorbed::Closed && final(self).input@ == old(self).input@
            } else if old(self).input@.len() + bytes@.len() > 2 + MAX_TCP_FRAME {
                r == Absorbed::Overflow && final(self).input@ == old(self).input@
            } else {
                &&& final(self).input@ == old(self).input@ + bytes@
                &&& r == (if frame_ready(final(self).input@) {
                    Absorbed::Ready
                } else {
                    Absorbed::More
                })
            },
    {
        if bytes.len() == 0 {
            return Absorbed::Closed;
        }
        if bytes.len() > 2 + MAX_TCP_FRAME - self.input.len() {
            return Absorbed::Overflow;
        }
        extend(&mut self.input, bytes);
        if self.is_ready() {
            Absorbed::Ready
        } else {
            Absorbed::More
        }
    }

    /// Cuts the first message off.
    pub fn take_frame(&mut self) -> (r: Vec<u8>)
        requires
            old(self).wf(),
            frame_ready(old(self).input@),
        ensures
            r@ == first_frame(old(self).input@),
            final(self).input@ == behind_frame(old(self).input@),
            final(self).wf(),
    {
        let end: usize = 2 + read_be16(&self.input, 0) as usize;
        let mut frame: Vec<u8> = Vec::new();
        extend(&mut frame, slice_subrange(self.input.as_slice(), 2, end));
        assert(frame@ =~= first_frame(self.input@));
        let mut rest: Vec<u8> = Vec::new();
        assert(self.input@.subrange(end as int, self.input@.len() as int) == behind_frame(
            self.input@,
        ));
        extend(&mut rest, slice_subrange(self.input.as_slice(), end, self.input.len()));
        assert(rest@ =~= behind_frame(self.input@));
        self.input = rest;
        frame
    }
}

/// A message behind its length.
pub open spec fn framed(message: Seq<u8>) -> Seq<u8> {
    seq![(message.len() / 256) as u8, (message.len() % 256) as u8] + message
}

/// Puts a reply behind its length; a reply that is too long for that cannot be sent.
pub fn frame_reply(reply: &[u8]) -> (r: Option<Vec<u8>>)
    ensures
        r is Some <==> reply@.len() <= 65535,
        r is Some ==> r->0@ == framed(reply@),
{
    if reply.len() > 65535 {
        return None;
    }
    let mut out: Vec<u8> = Vec::new();
    out.push((reply.len() / 256) as u8);
    out.push((reply.len() % 256) as u8);
    extend(&mut out, reply);
    assert(out@ =~= framed(reply@));
    Some(out)
}

/// Why a datagram is dropped unread.
pub fn datagram_fault(bytes: usize) -> (r: Option<&'static str>)
    ensures
        if bytes > MAX_QUERY_BYTES {
            r is Some && r->0@ == "query_oversized"@
        } else {
            r is None
        },
{
    if bytes > MAX_QUERY_BYTES {
        Some("query_oversized")
    } else {
        None
    }
}

/// The event that a reply is to the message it answers.
pub open spec fn reply_event<'a>(action: Action, reply: &'a [u8]) -> Event<'a> {
    if action == Action::Forward {
        Event::Forwarded(reply)
    } else {
        Event::Respond(reply)
    }
}

/// Goes on with the state of a message when its reply is known.
pub fn answered<'a>(state: DecisionState<'a>, action: Action, reply: &'a [u8]) -> (r: Result<
    DecisionState<'a>,
    TransitionError,
>)
    ensures
        match step(state, reply_event(action, reply)) {
            Some(next) => r == Ok::<_, TransitionError>(next),
            None => if legal(state, reply_event(action, reply)) {
                r == Err::<DecisionState<'a>, _>(TransitionError::OutputTooSmall)
            } else {
                &&& r matches Err(TransitionError::Illegal { state: found, event })
                &&& found@ == state_name(state)
                &&& event@ == event_name(reply_event(action, reply))
            },
        },
{
    if action == Action::Forward {
        state.transition(Event::Forwarded(reply))
    } else {
        state.transition(Event::Respond(reply))
    }
}

/// The state in which a frame waits for the rest of its bytes.
pub fn wait_for_more<'a>(input: &'a [u8]) -> (r: Result<DecisionState<'a>, TransitionError>)
    ensures
        r == Ok::<_, TransitionError>(DecisionState::Parsing { packet: input }),
{
    match DecisionState::received(input).transition(Event::BeginParse) {
        Ok(state) => state.transition(Event::NeedMore(input)),
        Err(error) => Err(error),
    }
}

/// The state in which the next message of a stream is received: behind an answer the stream goes
/// on, else it starts.
pub fn next_message<'a>(answered: Option<DecisionState<'a>>, frame: &'a [u8]) -> (r: Result<
    DecisionState<'a>,
    TransitionError,
>)
    ensures
        match answered {
            None => r == Ok::<DecisionState<'a>, TransitionError>(
                DecisionState::Received { packet: frame },
            ),
            Some(state) => if state is Sent {
                r == Ok::<DecisionState<'a>, TransitionError>(
                    DecisionState::Received { packet: frame },
                )
            } else {
                &&& r matches Err(TransitionError::Illegal { state: found, event })
                &&& found@ == state_name(state)
                &&& event@ == "NextMessage"@
            },
        },
{
    match answered {
        Some(state) => state.transition(Event::NextMessage(frame)),
        None => Ok(DecisionState::received(frame)),
    }
}

// ---- laws ----------------------------------------------------------------------------

/// What was framed is cut out again, whatever follows it.
pub proof fn frames_round_trip(message: Seq<u8>, rest: Seq<u8>)
    requires
        message.len() <= 65535,
    ensures
        frame_ready(framed(message) + rest),
        first_frame(framed(message) + rest) == message,
        behind_frame(framed(message) + rest) == rest,
{
    let input = framed(message) + rest;
    assert(input[0] == (message.len() / 256) as u8 && input[1] == (message.len() % 256) as u8);
    assert(be16(input, 0) == message.len());
    assert(first_frame(input) =~= message);
    assert(behind_frame(input) =~= rest);
}

/// All whole messages at the front of a stream, and what is left behind them.
pub open spec fn cut(input: Seq<u8>) -> (Seq<Seq<u8>>, Seq<u8>)
    decreases input.len(),
{
    if frame_ready(input) {
        let (more, rest) = cut(behind_frame(input));
        (seq![first_frame(input)] + more, rest)
    } else {
        (Seq::empty(), input)
    }
}

/// How the bytes of a stream arrive does not matter: cutting what came first, and then what is
/// left of it with what came later, gives the same messages as cutting everything at once.
pub proof fn arrival_does_not_matter(first: Seq<u8>, second: Seq<u8>)
    ensures
        ({
            let (early, left) = cut(first);
            let (late, rest) = cut(left + second);
            cut(first + second) == (early + late, rest)
        }),
    decreases first.len(),
{
    let whole = first + second;
    let (early, left) = cut(first);
    let (late, rest) = cut(left + second);
    if frame_ready(first) {
        assert(whole[0] == first[0] && whole[1] == first[1]);
        assert(frame_ready(whole));
        assert(first_frame(whole) =~= first_frame(first));
        assert(behind_frame(whole) =~= behind_frame(first) + second);
        arrival_does_not_matter(behind_frame(first), second);
        let (more, _) = cut(behind_frame(first));
        assert(seq![first_frame(first)] + (more + late) =~= early + late);
    } else {
        assert(early + late =~= late);
    }
}

/// An answer that is sent fits every budget, answers the query's number, and is never empty.
pub proof fn sent_answers_are_whole(
    tables: TablesView,
    traffic: TrafficView,
    packet_bytes: usize,
    id: u16,
    recursion_desired: bool,
    name: Seq<char>,
    qtype: u16,
    qclass: u16,
    answer: AnswerView,
    client: Option<IpAddr>,
    now: u64,
)
    requires
        sent(
            tables,
            traffic,
            packet_bytes,
            id,
            recursion_desired,
            name,
            qtype,
            qclass,
            answer,
            client,
            now,
        ).0.reply is Some,
    ensures
        ({
            let bytes = sent(
                tables,
                traffic,
                packet_bytes,
                id,
                recursion_desired,
                name,
                qtype,
                qclass,
                answer,
                client,
                now,
            ).0.reply->0;
            &&& bytes.len() >= 17
            &&& be16(bytes, 0) == id
            &&& wire_response(id, recursion_desired, name, qtype, qclass, answer) == Ok::<
                Seq<u8>,
                NameError,
            >(bytes)
        }),
{
    crate::dns::responses_echo_the_query(id, recursion_desired, name, qtype, qclass, answer);
}

/// A message that is served can be answered with any reply that is not empty.
pub proof fn served_messages_can_be_answered<'a>(
    state: DecisionState<'a>,
    asked: QuestionView,
    action: Action,
    reply: &'a [u8],
)
    requires
        serving_state(state, asked, action),
        reply@.len() > 0,
    ensures
        step(state, reply_event(action, reply)) matches Some(DecisionState::Responding {
            output,
            ..
        }) && output == reply,
{
    assert(reply@ != Seq::<u8>::empty());
}

/// A message that is read as a query begins like one, and so does a longer one with the same first
/// bytes; what begins like a query has a whole header, asks a standard question and no more than
/// one.
pub proof fn queries_begin_like_queries(packet: Seq<u8>)
    ensures
        question(packet) is Ok ==> begins_query(packet),
        begins_query(packet) <==> packet.len() >= 12 && packet[2] < 8 && packet[4] == 0 && packet[5]
            == 1,
{
    headers_are_checked_first(packet);
    if packet.len() >= 12 {
        assert(be16(packet, 4) == packet[4] * 256 + packet[5]);
    }
}

/// A message goes behind its length in network order.
pub proof fn lengths_are_in_network_order(message: Seq<u8>)
    requires
        message.len() <= 65535,
    ensures
        framed(message).len() == message.len() + 2,
        framed(message)[0] * 256 + framed(message)[1] == message.len(),
        framed(message).skip(2) == message,
        frame_ready(framed(message)),
        message.len() > 0 ==> !frame_ready(framed(message).drop_last()),
{
    let whole = framed(message);
    assert(whole.skip(2) =~= message);
    let n = message.len() as int;
    assert(n / 256 <= 255 && n % 256 <= 255 && n / 256 * 256 + n % 256 == n);
    assert(be16(whole, 0) == n);
    if message.len() > 0 {
        let cut_short = whole.drop_last();
        assert(cut_short[0] == whole[0] && cut_short[1] == whole[1]);
    }
}

/// Nothing is answered to a query that is dropped or ignored; every other action is answered.
pub proof fn only_dropped_queries_get_no_answer(action: Action)
    ensures
        silent(action) <==> action is Drop || action is Ignore,
{
}

/// A query that was taken in is decided on for its name, its type, its class and its client, and the
/// decision is recorded. A dropped or ignored query gets no answer; any other is served with the
/// action that was decided on, as it was asked.
pub proof fn queries_are_served_as_decided(
    before: Policy,
    after: Policy,
    r: Intake<'_>,
    asked: QuestionView,
    client: Option<IpAddr>,
    now_ms: u64,
)
    requires
        query_taken(before, after, r, asked, client, now_ms),
    ensures
        ({
            let action = view_action(
                before.tables@,
                dotted(asked.wire),
                asked.qtype,
                asked.qclass,
                client,
                None,
            );
            &&& r.record matches Some(record) && record.action == action
            &&& action is Drop || action is Ignore ==> r.step is Dropped
            &&& !(action is Drop || action is Ignore) ==> {
                &&& r.step matches IntakeStep::Serve { query, action: chosen, .. }
                &&& chosen == action
                &&& query.id == asked.id
                &&& query.name@ == dotted(asked.wire)
                &&& query.qtype == asked.qtype
                &&& query.qclass == asked.qclass
                &&& query.recursion_desired == asked.recursion_desired
            }
            &&& before.query_log is None ==> after.query_log is None
            &&& before.query_log is Some && before.query_log->0.max_entries > 0 ==> {
                &&& after.query_log is Some
                &&& after.query_log->0@.last().ts_ms == now_ms
                &&& after.query_log->0@.last().kind matches LogKind::Decision(kept) && r.record
                    == Some(kept)
            }
            &&& after.traffic == before.traffic
        }),
{
    if before.query_log is Some {
        let log = before.query_log->0;
        logs_stay_bounded(
            log@,
            LogEvent { ts_ms: now_ms, kind: LogKind::Decision(r.record->0) },
            log.max_entries,
            log.retention_ms,
        );
    }
}

/// A malformed packet counts as one violation of its client, and the breaker that it opens, if any,
/// is told with the cause.
pub proof fn malformed_packets_are_violations(
    tables: TablesView,
    traffic: TrafficView,
    client: Option<IpAddr>,
    cause: Seq<char>,
    now: u64,
)
    ensures
        ({
            let (causes, opened, next) = malformed(tables, traffic, client, cause, now);
            &&& (opened, next) == violation(traffic, tables.admission, client, now)
            &&& causes[0] == cause
            &&& opened ==> causes.len() == 3
            &&& !opened ==> causes.len() == 1
        }),
{
}

/// An answer is sent as it is encoded where the shared budget, that of the client and that of its
/// network allow it, whether or not it is long for its query; the latter is a violation. Where a
/// budget is used up nothing is sent, that is a violation too, and the later budgets are not
/// touched. What cannot be encoded is not sent.
pub proof fn answers_are_sent_within_their_budgets(
    tables: TablesView,
    traffic: TrafficView,
    packet_bytes: usize,
    id: u16,
    recursion_desired: bool,
    name: Seq<char>,
    qtype: u16,
    qclass: u16,
    answer: AnswerView,
    client: Option<IpAddr>,
    now: u64,
)
    ensures
        ({
            let limits = tables.admission;
            let encoded = wire_response(id, recursion_desired, name, qtype, qclass, answer);
            let (outcome, after) = sent(
                tables,
                traffic,
                packet_bytes,
                id,
                recursion_desired,
                name,
                qtype,
                qclass,
                answer,
                client,
                now,
            );
            match encoded {
                Err(error) => outcome.reply is None && outcome.error == Some(error) && after
                    == traffic && outcome.causes.len() == 1,
                Ok(bytes) => {
                    let size = bytes.len() as usize;
                    let long = amplified(packet_bytes, size, limits.max_response_amplification);
                    let start = if long {
                        violation(traffic, limits, client, now).1
                    } else {
                        traffic
                    };
                    let shared = global_bytes_question(start, limits, size, now);
                    let own = client_bytes_question(shared.1, limits, client, size, now);
                    let wide = network_bytes_question(own.1, limits, client, size, now);
                    &&& outcome.error is None
                    &&& outcome.reply is Some <==> shared.0 && own.0 && wide.0
                    &&& outcome.reply is Some ==> outcome.reply->0 == bytes && after == wide.1
                    &&& outcome.reply is Some && !long ==> outcome.causes.len() == 0
                        && outcome.incidents.len() == 0
                    &&& outcome.reply is None ==> outcome.causes.len() > 0
                    &&& !shared.0 ==> after == global_violation(shared.1, limits, now).1
                    &&& shared.0 && !own.0 ==> after == violation(own.1, limits, client, now).1
                    &&& shared.0 && own.0 && !wide.0 ==> after == violation(
                        wide.1,
                        limits,
                        client,
                        now,
                    ).1
                },
            }
        }),
{
}

} // verus!
