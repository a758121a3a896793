//! The limits of a running policy, asked with the limits in force.
use vstd::prelude::*;

use crate::admission::{amplified, response_amplification_capped};
use crate::net::IpAddr;
use crate::runtime::Policy;
use crate::traffic::{abuse_question, client_bytes_question, global_bytes_question, global_violation,
    incident_restored, incident_revoked, network_bytes_question, violation, TrafficView};

verus! {

impl Policy {
    /// Whether a client passes its own breaker and that of its network.
    pub fn allow_client_abuse(&mut self, client: Option<IpAddr>, now: u64) -> (r: bool)
        requires
            old(self).wf(),
        ensures
            (r, final(self).traffic@) == abuse_question(
                old(self).traffic@,
                old(self).tables@.admission,
                client,
                now,
            ),
            final(self).only_traffic(old(self)),
            final(self).wf(),
    {
        self.traffic.allow_client_abuse(&self.tables.admission, client, now)
    }

    /// Counts a violation of a client. The result says whether a breaker opened.
    pub fn record_client_abuse(&mut self, client: Option<IpAddr>, now: u64) -> (r: bool)
        requires
            old(self).wf(),
        ensures
            (r, final(self).traffic@) == violation(
                old(self).traffic@,
                old(self).tables@.admission,
                client,
                now,
            ),
            final(self).only_traffic(old(self)),
            final(self).wf(),
    {
        self.traffic.record_client_abuse(&self.tables.admission, client, now)
    }

    /// Counts a violation against all clients together. The result says whether the breaker
    /// opened.
    pub fn record_global_abuse(&mut self, now: u64) -> (r: bool)
        requires
            old(self).wf(),
        ensures
            (r, final(self).traffic@) == global_violation(
                old(self).traffic@,
                old(self).tables@.admission,
                now,
            ),
            final(self).only_traffic(old(self)),
            final(self).wf(),
    {
        self.traffic.record_global_abuse(&self.tables.admission, now)
    }

    /// Whether an answer of this size to a client is within its budget.
    pub fn allow_client_response_bytes(&mut self, client: Option<IpAddr>, bytes: usize, now: u64) -> (r:
        bool)
        requires
            old(self).wf(),
        ensures
            (r, final(self).traffic@) == client_bytes_question(
                old(self).traffic@,
                old(self).tables@.admission,
                client,
                bytes,
                now,
            ),
            final(self).only_traffic(old(self)),
            final(self).wf(),
    {
        self.traffic.allow_client_response_bytes(&self.tables.admission, client, bytes, now)
    }

    /// Whether an answer of this size to a client is within the budget of its network.
    pub fn allow_network_response_bytes(&mut self, client: Option<IpAddr>, bytes: usize, now: u64) -> (r:
        bool)
        requires
            old(self).wf(),
        ensures
            (r, final(self).traffic@) == network_bytes_question(
                old(self).traffic@,
                old(self).tables@.admission,
                client,
                bytes,
                now,
            ),
            final(self).only_traffic(old(self)),
            final(self).wf(),
    {
        self.traffic.allow_network_response_bytes(&self.tables.admission, client, bytes, now)
    }

    /// Whether an answer of this size is within the budget for all clients together.
    pub fn allow_global_response_bytes(&mut self, bytes: usize, now: u64) -> (r: bool)
        requires
            old(self).wf(),
        ensures
            (r, final(self).traffic@) == global_bytes_question(
                old(self).traffic@,
                old(self).tables@.admission,
                bytes,
                now,
            ),
            final(self).only_traffic(old(self)),
            final(self).wf(),
    {
        self.traffic.allow_global_response_bytes(&self.tables.admission, bytes, now)
    }

    /// Whether an encoded answer reaches the multiple of the query that is allowed.
    pub fn response_amplification_capped(&self, query_bytes: usize, response_bytes: usize) -> (r:
        bool)
        ensures
            r == amplified(
                query_bytes,
                response_bytes,
                self.tables@.admission.max_response_amplification,
            ),
    {
        response_amplification_capped(
            query_bytes,
            response_bytes,
            self.tables.admission.max_response_amplification,
        )
    }

    /// Blocks a client and its network again for what is left of an incident. The result says
    /// whether anything was left.
    pub fn restore_abuse_incident(
        &mut self,
        client: IpAddr,
        expires_at_ms: u64,
        now_ms: u64,
        now: u64,
    ) -> (r: bool)
        requires
            old(self).wf(),
        ensures
            (r, final(self).traffic@) == incident_restored(
                old(self).traffic@,
                old(self).tables@.admission,
                client,
                expires_at_ms,
                now_ms,
                now,
            ),
            final(self).only_traffic(old(self)),
            final(self).wf(),
    {
        self.traffic.restore_abuse_incident(
            &self.tables.admission,
            client,
            expires_at_ms,
            now_ms,
            now,
        )
    }

    /// Takes back the blocks of a client and its network.
    pub fn revoke_abuse_incident(&mut self, client: IpAddr)
        requires
            old(self).wf(),
        ensures
            final(self).traffic@ == incident_revoked(
                old(self).traffic@,
                old(self).tables@.admission,
                client,
            ),
            final(self).only_traffic(old(self)),
            final(self).wf(),
    {
        self.traffic.revoke_abuse_incident(&self.tables.admission, client);
    }

    /// Forgets the breakers of clients and networks. The result is how many there were.
    pub fn clear_abuse_state(&mut self) -> (r: usize)
        requires
            old(self).wf(),
        ensures
            r == old(self).traffic@.client_abuse.len() + old(self).traffic@.network_abuse.len(),
            final(self).traffic@ == (TrafficView {
                client_abuse: Seq::empty(),
                network_abuse: Seq::empty(),
                ..old(self).traffic@
            }),
            final(self).only_traffic(old(self)),
            final(self).wf(),
    {
        self.traffic.clear_abuse_state()
    }
}

} // verus!
