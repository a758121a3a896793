//! The decision path without a runtime: parse one packet, match it, return the decision.
use vstd::prelude::*;

use crate::net::IpAddr;
use crate::policy::{applies, compiled_policy, decision, decision_is_the_strongest_rule, error_message,
    rule_views, ContextView, Decision, ErrorView, Meaning, PolicyError, QueryContext, ReferencePolicy,
    RuleConfig};
use crate::query::{dotted, parse_cause, question, QueryParseError, QueryView, MAX_QUERY_BYTES};
use crate::names::normal;
use crate::text::joined;

verus! {

#[derive(Clone, Debug, PartialEq, Eq)]
pub enum EdgeError {
    Query(QueryParseError),
    Policy(PolicyError),
}

impl EdgeError {
    /// The error in words; a packet that is no query is told by the name under which the failure
    /// is counted.
    pub fn message(&self) -> (r: String)
        ensures
            r@ == match *self {
                EdgeError::Query(error) => "edge query: "@ + parse_cause(error),
                EdgeError::Policy(error) => "edge policy: "@ + error_message(error@),
            },
    {
        match self {
            EdgeError::Query(error) => joined("edge query: ", error.telemetry_cause()),
            EdgeError::Policy(error) => {
                let reason = error.message();
                joined("edge policy: ", reason.as_str())
            },
        }
    }
}

/// An immutable policy that is built when the configuration changes and used for every
/// packet until it changes again.
pub struct EdgePolicy {
    policy: ReferencePolicy,
}

impl View for EdgePolicy {
    type V = Seq<Meaning>;

    closed spec fn view(&self) -> Seq<Meaning> {
        self.policy@
    }
}

/// The decision of a list of rules on the query that a packet holds.
pub open spec fn packet_decision(
    rules: Seq<Meaning>,
    packet: Seq<u8>,
    client: Option<IpAddr>,
) -> Result<Option<Decision>, QueryParseError> {
    match question(packet) {
        Err(error) => Err(error),
        Ok(query) => Ok(
            decision(
                rules,
                ContextView {
                    name: normal(dotted(query.wire)),
                    qtype: query.qtype,
                    qclass: query.qclass,
                    client,
                    client_identity: None,
                },
            ),
        ),
    }
}

impl EdgePolicy {
    /// Checks the rules and makes a policy of them.
    pub fn new(rules: &[RuleConfig]) -> (r: Result<EdgePolicy, PolicyError>)
        ensures
            match compiled_policy(rule_views(rules@)) {
                Ok(value) => r is Ok && r->Ok_0@ == value,
                Err(error) => r is Err && r->Err_0@ == error,
            },
    {
        match ReferencePolicy::new(rules) {
            Ok(policy) => Ok(EdgePolicy { policy }),
            Err(error) => Err(error),
        }
    }

    /// Parses one packet and matches it against this policy.
    pub fn decide(&self, packet: &[u8], client: Option<IpAddr>) -> (r: Result<
        Option<Decision>,
        EdgeError,
    >)
        ensures
            match packet_decision(self@, packet@, client) {
                Ok(value) => r is Ok && r->Ok_0 == value,
                Err(error) => r == Err::<Option<Decision>, EdgeError>(EdgeError::Query(error)),
            },
    {
        let query = match QueryView::parse(packet) {
            Ok(query) => query,
            Err(error) => {
                return Err(EdgeError::Query(error));
            },
        };
        let name = query.name.to_dotted();
        Ok(
            self.policy.decide(
                QueryContext {
                    name: name.as_str(),
                    qtype: query.qtype,
                    qclass: query.qclass,
                    client,
                    client_identity: None,
                },
            ),
        )
    }
}

/// Parses and matches one packet against rules that are used this once. The rules are
/// checked first; the decision keeps the number and the action of the selected rule.
pub fn decide(packet: &[u8], rules: &[RuleConfig], client: Option<IpAddr>) -> (r: Result<
    Option<Decision>,
    EdgeError,
>)
    ensures
        match compiled_policy(rule_views(rules@)) {
            Err(error) => r matches Err(EdgeError::Policy(found)) && found@ == error,
            Ok(meanings) => match packet_decision(meanings, packet@, client) {
                Ok(value) => r is Ok && r->Ok_0 == value,
                Err(error) => r == Err::<Option<Decision>, EdgeError>(EdgeError::Query(error)),
            },
        },
{
    match EdgePolicy::new(rules) {
        Ok(policy) => policy.decide(packet, client),
        Err(error) => Err(EdgeError::Policy(error)),
    }
}

/// Probes a packet with an empty policy: `0` for a valid query, which no rule can match, and
/// `-1` for a packet that is too long or no query.
pub fn probe(packet: &[u8]) -> (r: i32)
    ensures
        r == if packet@.len() <= MAX_QUERY_BYTES && question(packet@) is Ok {
            0int
        } else {
            -1
        },
{
    if packet.len() > MAX_QUERY_BYTES {
        return -1;
    }
    let rules: Vec<RuleConfig> = Vec::new();
    let ghost views = rule_views(rules@);
    assert(views.len() == 0);
    assert(compiled_policy(views) == Ok::<Seq<Meaning>, ErrorView>(Seq::empty()));
    match decide(packet, &rules, None) {
        Ok(Some(_)) => 1,
        Ok(None) => 0,
        Err(_) => -1,
    }
}

/// A packet is decided on by its question, in lower case and without the root's dot, and by the
/// client: one rule decides where it applies to these, with its number and its action, and none does
/// where there are no rules. A packet that is no query is not decided on.
pub proof fn packets_are_decided_by_their_question(
    rule: Meaning,
    packet: Seq<u8>,
    client: Option<IpAddr>,
)
    ensures
        match question(packet) {
            Err(error) => packet_decision(seq![rule], packet, client) == Err::<
                Option<Decision>,
                QueryParseError,
            >(error),
            Ok(query) => {
                let asked = ContextView {
                    name: normal(dotted(query.wire)),
                    qtype: query.qtype,
                    qclass: query.qclass,
                    client,
                    client_identity: None,
                };
                &&& packet_decision(Seq::empty(), packet, client) == Ok::<
                    Option<Decision>,
                    QueryParseError,
                >(None)
                &&& applies(rule, asked) ==> packet_decision(seq![rule], packet, client) == Ok::<
                    Option<Decision>,
                    QueryParseError,
                >(Some(Decision { rule_id: rule.id, action: rule.action }))
                &&& !applies(rule, asked) ==> packet_decision(seq![rule], packet, client) == Ok::<
                    Option<Decision>,
                    QueryParseError,
                >(None)
            },
        },
{
    if question(packet) is Ok {
        let query = question(packet)->Ok_0;
        let asked = ContextView {
            name: normal(dotted(query.wire)),
            qtype: query.qtype,
            qclass: query.qclass,
            client,
            client_identity: None,
        };
        decision_is_the_strongest_rule(seq![rule], asked, 1);
        decision_is_the_strongest_rule(Seq::empty(), asked, 0);
        assert(seq![rule][0] == rule);
    }
}

} // verus!
