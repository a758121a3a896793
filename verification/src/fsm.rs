//! The states that one DNS message goes through, and the events that advance them.
use vstd::prelude::*;

use crate::policy::Action;
use crate::query::QueryView;
use crate::text::joined;

verus! {

#[derive(Clone, Copy, Debug, PartialEq, Eq, Structural)]
pub enum DropReason {
    Malformed,
    PolicyFailure,
    OutputTooSmall,
    Refused,
}

#[derive(Clone, Copy, Debug, PartialEq, Eq, Structural)]
pub enum CloseReason {
    Peer,
    Protocol,
}

/// One event that the caller supplies to advance the machine.
#[derive(Clone, Copy, Debug, PartialEq, Eq)]
pub enum Event<'packet> {
    BeginParse,
    Parsed(QueryView<'packet>),
    NeedMore(&'packet [u8]),
    Matched(Action),
    Forward,
    Forwarded(&'packet [u8]),
    Respond(&'packet [u8]),
    Sent,
    NextMessage(&'packet [u8]),
    Drop(DropReason),
    PeerClosed,
}

/// A state holds only what is valid in it; no state keeps a borrowed slice after the next
/// transition has consumed it.
#[allow(inconsistent_fields)]
#[derive(Clone, Copy, Debug, PartialEq, Eq)]
pub enum DecisionState<'packet> {
    Received { packet: &'packet [u8] },
    Parsing { packet: &'packet [u8] },
    Parsed { query: QueryView<'packet> },
    Matched { query: QueryView<'packet>, disposition: Action },
    Forwarding { query: QueryView<'packet> },
    Responding { query: QueryView<'packet>, output: &'packet [u8] },
    Sent { query: QueryView<'packet> },
    Dropped { reason: DropReason },
    Closed { reason: CloseReason },
}

#[derive(Clone, Copy, Debug, PartialEq, Eq)]
pub enum TransitionError {
    Illegal { state: &'static str, event: &'static str },
    OutputTooSmall,
}

impl TransitionError {
    /// The error in words.
    pub fn message(&self) -> (r: String)
        ensures
            r@ == match *self {
                TransitionError::Illegal { state, event } => "illegal FSM transition: "@ + state@
                    + " + "@ + event@,
                TransitionError::OutputTooSmall => "response output buffer is too small"@,
            },
    {
        match self {
            TransitionError::Illegal { state, event } => {
                let head = joined("illegal FSM transition: ", state);
                let middle = joined(head.as_str(), " + ");
                joined(middle.as_str(), event)
            },
            TransitionError::OutputTooSmall => "response output buffer is too small".to_owned(),
        }
    }
}

pub open spec fn state_name(state: DecisionState) -> Seq<char> {
    match state {
        DecisionState::Received { .. } => "Received"@,
        DecisionState::Parsing { .. } => "Parsing"@,
        DecisionState::Parsed { .. } => "Parsed"@,
        DecisionState::Matched { .. } => "Matched"@,
        DecisionState::Forwarding { .. } => "Forwarding"@,
        DecisionState::Responding { .. } => "Responding"@,
        DecisionState::Sent { .. } => "Sent"@,
        DecisionState::Dropped { .. } => "Dropped"@,
        DecisionState::Closed { .. } => "Closed"@,
    }
}

pub open spec fn event_name(event: Event) -> Seq<char> {
    match event {
        Event::BeginParse => "BeginParse"@,
        Event::Parsed(_) => "Parsed"@,
        Event::NeedMore(_) => "NeedMore"@,
        Event::Matched(_) => "Matched"@,
        Event::Forward => "Forward"@,
        Event::Forwarded(_) => "Forwarded"@,
        Event::Respond(_) => "Respond"@,
        Event::Sent => "Sent"@,
        Event::NextMessage(_) => "NextMessage"@,
        Event::Drop(_) => "Drop"@,
        Event::PeerClosed => "PeerClosed"@,
    }
}

/// Whether the state takes the event at all.
pub open spec fn legal(state: DecisionState, event: Event) -> bool {
    match state {
        DecisionState::Received { .. } => event is BeginParse || event is PeerClosed,
        DecisionState::Parsing { .. } => event is Parsed || event is NeedMore || event is Drop
            || event is PeerClosed,
        DecisionState::Parsed { .. } => event is Matched || event is Drop,
        DecisionState::Matched { disposition, .. } => event is Respond || event is Drop || (event
            is Forward && disposition == Action::Forward),
        DecisionState::Forwarding { .. } => event is Forwarded || event is Drop || event
            is PeerClosed,
        DecisionState::Responding { .. } => event is Sent || event is PeerClosed,
        DecisionState::Sent { .. } => event is NextMessage || event is PeerClosed,
        DecisionState::Dropped { .. } => event is PeerClosed,
        DecisionState::Closed { .. } => false,
    }
}

/// The response that the event carries, where it carries one.
pub open spec fn response_of(event: Event) -> Option<Seq<u8>> {
    match event {
        Event::Forwarded(output) => Some(output@),
        Event::Respond(output) => Some(output@),
        _ => None,
    }
}

/// The query that a state holds, where it holds one.
pub open spec fn query_of<'a>(state: DecisionState<'a>) -> Option<QueryView<'a>> {
    match state {
        DecisionState::Parsed { query } => Some(query),
        DecisionState::Matched { query, .. } => Some(query),
        DecisionState::Forwarding { query } => Some(query),
        DecisionState::Responding { query, .. } => Some(query),
        DecisionState::Sent { query } => Some(query),
        _ => None,
    }
}

/// The state that a legal event leads to.
pub open spec fn successor<'a>(state: DecisionState<'a>, event: Event<'a>) -> DecisionState<'a> {
    match event {
        Event::BeginParse => DecisionState::Parsing {
            packet: match state {
                DecisionState::Received { packet } => packet,
                _ => arbitrary(),
            },
        },
        Event::Parsed(query) => DecisionState::Parsed { query },
        Event::NeedMore(packet) => DecisionState::Parsing { packet },
        Event::Matched(disposition) => DecisionState::Matched {
            query: query_of(state)->0,
            disposition,
        },
        Event::Forward => DecisionState::Forwarding { query: query_of(state)->0 },
        Event::Forwarded(output) => DecisionState::Responding { query: query_of(state)->0, output },
        Event::Respond(output) => DecisionState::Responding { query: query_of(state)->0, output },
        Event::Sent => DecisionState::Sent { query: query_of(state)->0 },
        Event::NextMessage(packet) => DecisionState::Received { packet },
        Event::Drop(reason) => DecisionState::Dropped { reason },
        Event::PeerClosed => DecisionState::Closed { reason: CloseReason::Peer },
    }
}

impl<'packet> DecisionState<'packet> {
    /// The first state of a message.
    #[must_use]
    pub fn received(packet: &'packet [u8]) -> (r: DecisionState<'packet>)
        ensures
            r == (DecisionState::Received { packet }),
    {
        DecisionState::Received { packet }
    }

    /// Consumes one state and applies one event. An event that the state does not take is an
    /// error that names both; an empty response is an error of its own.
    pub fn transition(self, event: Event<'packet>) -> (r: Result<
        DecisionState<'packet>,
        TransitionError,
    >)
        ensures
            !legal(self, event) ==> {
                &&& r matches Err(TransitionError::Illegal { state, event: name })
                &&& state@ == state_name(self)
                &&& name@ == event_name(event)
            },
            legal(self, event) && response_of(event) == Some(Seq::<u8>::empty()) ==> r == Err::<
                DecisionState<'packet>,
                TransitionError,
            >(TransitionError::OutputTooSmall),
            legal(self, event) && response_of(event) != Some(Seq::<u8>::empty()) ==> r == Ok::<
                DecisionState<'packet>,
                TransitionError,
            >(successor(self, event)),
    {
        match (self, event) {
            (DecisionState::Received { packet }, Event::BeginParse) => Ok(
                DecisionState::Parsing { packet },
            ),
            (DecisionState::Received { .. }, Event::PeerClosed) => Ok(
                DecisionState::Closed { reason: CloseReason::Peer },
            ),
            (DecisionState::Parsing { .. }, Event::Parsed(query)) => Ok(
                DecisionState::Parsed { query },
            ),
            (DecisionState::Parsing { .. }, Event::NeedMore(packet)) => Ok(
                DecisionState::Parsing { packet },
            ),
            (DecisionState::Parsing { .. }, Event::Drop(reason)) => Ok(
                DecisionState::Dropped { reason },
            ),
            (DecisionState::Parsing { .. }, Event::PeerClosed) => Ok(
                DecisionState::Closed { reason: CloseReason::Peer },
            ),
            (DecisionState::Parsed { query }, Event::Matched(disposition)) => Ok(
                DecisionState::Matched { query, disposition },
            ),
            (DecisionState::Parsed { .. }, Event::Drop(reason)) => Ok(
                DecisionState::Dropped { reason },
            ),
            (
                DecisionState::Matched { query, disposition: Action::Forward },
                Event::Forward,
            ) => Ok(DecisionState::Forwarding { query }),
            (DecisionState::Matched { query, .. }, Event::Respond(output)) => {
                if output.len() == 0 {
                    assert(output@ =~= Seq::<u8>::empty());
                    return Err(TransitionError::OutputTooSmall);
                }
                Ok(DecisionState::Responding { query, output })
            },
            (DecisionState::Matched { .. }, Event::Drop(reason)) => Ok(
                DecisionState::Dropped { reason },
            ),
            (DecisionState::Forwarding { query }, Event::Forwarded(output)) => {
                if output.len() == 0 {
                    assert(output@ =~= Seq::<u8>::empty());
                    return Err(TransitionError::OutputTooSmall);
                }
                Ok(DecisionState::Responding { query, output })
            },
            (DecisionState::Forwarding { .. }, Event::Drop(reason)) => Ok(
                DecisionState::Dropped { reason },
            ),
            (DecisionState::Forwarding { .. }, Event::PeerClosed) => Ok(
                DecisionState::Closed { reason: CloseReason::Peer },
            ),
            (DecisionState::Responding { query, .. }, Event::Sent) => Ok(
                DecisionState::Sent { query },
            ),
            (DecisionState::Responding { .. }, Event::PeerClosed) => Ok(
                DecisionState::Closed { reason: CloseReason::Peer },
            ),
            (DecisionState::Dropped { .. }, Event::PeerClosed) => Ok(
                DecisionState::Closed { reason: CloseReason::Peer },
            ),
            (DecisionState::Sent { .. }, Event::NextMessage(packet)) => Ok(
                DecisionState::Received { packet },
            ),
            (DecisionState::Sent { .. }, Event::PeerClosed) => Ok(
                DecisionState::Closed { reason: CloseReason::Peer },
            ),
            (state, event) => Err(
                TransitionError::Illegal { state: state.name(), event: event.name() },
            ),
        }
    }

    fn name(self) -> (r: &'static str)
        ensures
            r@ == state_name(self),
    {
        match self {
            DecisionState::Received { .. } => "Received",
            DecisionState::Parsing { .. } => "Parsing",
            DecisionState::Parsed { .. } => "Parsed",
            DecisionState::Matched { .. } => "Matched",
            DecisionState::Forwarding { .. } => "Forwarding",
            DecisionState::Responding { .. } => "Responding",
            DecisionState::Sent { .. } => "Sent",
            DecisionState::Dropped { .. } => "Dropped",
            DecisionState::Closed { .. } => "Closed",
        }
    }
}

impl<'packet> Event<'packet> {
    fn name(self) -> (r: &'static str)
        ensures
            r@ == event_name(self),
    {
        match self {
            Event::BeginParse => "BeginParse",
            Event::Parsed(_) => "Parsed",
            Event::NeedMore(_) => "NeedMore",
            Event::Matched(_) => "Matched",
            Event::Forward => "Forward",
            Event::Forwarded(_) => "Forwarded",
            Event::Respond(_) => "Respond",
            Event::Sent => "Sent",
            Event::NextMessage(_) => "NextMessage",
            Event::Drop(_) => "Drop",
            Event::PeerClosed => "PeerClosed",
        }
    }
}

/// What a transition makes of a state and an event: the next state, or nothing where it is
/// refused.
pub open spec fn step<'a>(state: DecisionState<'a>, event: Event<'a>) -> Option<DecisionState<'a>> {
    if legal(state, event) && response_of(event) != Some(Seq::<u8>::empty()) {
        Some(successor(state, event))
    } else {
        None
    }
}

/// A closed message takes no event.
pub proof fn closed_is_terminal(reason: CloseReason, event: Event)
    ensures
        step(DecisionState::Closed { reason }, event) is None,
{
}

/// A dropped message is never answered: nothing but the peer's closing follows.
pub proof fn dropped_only_closes(reason: DropReason, event: Event)
    ensures
        step(DecisionState::Dropped { reason }, event) matches Some(next) ==> next
            is Closed,
{
}

/// A response state is only entered with a response in hand, from a matched or a forwarded
/// query, and keeps that query.
pub proof fn responses_are_never_empty<'a>(state: DecisionState<'a>, event: Event<'a>)
    ensures
        step(state, event) matches Some(DecisionState::Responding { query, output }) ==> {
            &&& output@.len() > 0
            &&& query_of(state) == Some(query)
            &&& state is Matched || state is Forwarding
        },
{
    match event {
        Event::Forwarded(output) => {
            assert(output@.len() == 0 ==> output@ =~= Seq::<u8>::empty());
        },
        Event::Respond(output) => {
            assert(output@.len() == 0 ==> output@ =~= Seq::<u8>::empty());
        },
        _ => {},
    }
}

/// Only a query whose action is to forward it reaches the forwarding state.
pub proof fn forwarding_needs_the_action<'a>(state: DecisionState<'a>, event: Event<'a>)
    ensures
        step(state, event) matches Some(DecisionState::Forwarding { .. }) ==> state
            matches DecisionState::Matched { disposition, .. } && disposition == Action::Forward,
{
}

/// A message counts as sent only after it was being answered, and the next message starts
/// only after one was sent.
pub proof fn sent_follows_responding<'a>(state: DecisionState<'a>, event: Event<'a>)
    ensures
        step(state, event) matches Some(DecisionState::Sent { .. }) ==> state is Responding,
        step(state, event) matches Some(DecisionState::Received { .. }) ==> state is Sent,
{
}

/// A message that is answered goes through these states, each with what it needs: it is received,
/// parsed, matched, answered and sent, and then the next one is received.
pub proof fn messages_are_answered_step_by_step<'a>(
    packet: &'a [u8],
    query: QueryView<'a>,
    action: Action,
    output: &'a [u8],
    next: &'a [u8],
)
    requires
        output@.len() > 0,
    ensures
        step(DecisionState::Received { packet }, Event::BeginParse) == Some(
            DecisionState::Parsing { packet },
        ),
        step(DecisionState::Parsing { packet }, Event::NeedMore(next)) == Some(
            DecisionState::Parsing { packet: next },
        ),
        step(DecisionState::Parsing { packet }, Event::Parsed(query)) == Some(
            DecisionState::Parsed { query },
        ),
        step(DecisionState::Parsed { query }, Event::Matched(action)) == Some(
            DecisionState::Matched { query, disposition: action },
        ),
        step(DecisionState::Matched { query, disposition: action }, Event::Respond(output)) == Some(
            DecisionState::Responding { query, output },
        ),
        step(
            DecisionState::Matched { query, disposition: Action::Forward },
            Event::Forward,
        ) == Some(DecisionState::Forwarding { query }),
        step(DecisionState::Forwarding { query }, Event::Forwarded(output)) == Some(
            DecisionState::Responding { query, output },
        ),
        step(DecisionState::Responding { query, output }, Event::Sent) == Some(
            DecisionState::Sent { query },
        ),
        step(DecisionState::Sent { query }, Event::NextMessage(next)) == Some(
            DecisionState::Received { packet: next },
        ),
{
    assert(output@ != Seq::<u8>::empty());
}

/// A message can be dropped while it is parsed, decided on or forwarded, and for the reason that is
/// given; it is neither dropped before it is parsed nor once there is an answer.
pub proof fn messages_are_dropped_for_their_reason<'a>(state: DecisionState<'a>, reason: DropReason)
    ensures
        step(state, Event::Drop(reason)) == if state is Parsing || state is Parsed || state
            is Matched || state is Forwarding {
            Some(DecisionState::Dropped { reason })
        } else {
            None
        },
{
}

/// The peer can close while nothing is decided on: before, between and behind the messages, and
/// while an answer is under way.
pub proof fn peers_close_between_decisions<'a>(state: DecisionState<'a>)
    ensures
        step(state, Event::PeerClosed) == if state is Parsed || state is Matched || state is Closed {
            None
        } else {
            Some(DecisionState::Closed { reason: CloseReason::Peer })
        },
{
}

/// An event is taken in no state but those that it is for.
pub proof fn events_have_their_states<'a>(state: DecisionState<'a>, event: Event<'a>)
    requires
        step(state, event) is Some,
    ensures
        event is BeginParse ==> state is Received,
        event is Parsed || event is NeedMore ==> state is Parsing,
        event is Matched ==> state is Parsed,
        event is Forward ==> state is Matched,
        event is Forwarded ==> state is Forwarding,
        event is Respond ==> state is Matched,
        event is Sent ==> state is Responding,
        event is NextMessage ==> state is Sent,
{
}

} // verus!
