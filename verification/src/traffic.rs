//! The budgets and breakers that the traffic of clients passes. Time is counted in microseconds
//! from the start of the program.
use vstd::prelude::*;

use crate::buckets::{abuse_network_bytes, abuse_network_key, abuse_opens, abuse_passes,
    abuse_recorded, client_key, ip_key, network_key, network_key_bytes,
    questions_forget_no_violation, seconds, shared_asked, spend, used_in, AtomicWindowBucket,
    AtomicWindowBudget, Spent, MAX_CLIENT_RATE_ENTRIES};
use crate::config::{AdmissionConfig, AdmissionView};
use crate::net::IpAddr;
use crate::tables::{admission_bucket, blocks_are_seen, bucket_of, find_slot, find_slot_is_exact,
    following, prepared, prepared_buckets_are_kept_or_new, prepared_holds_the_key,
    released_keys_pass, releasing_again_changes_nothing, table_allows, table_asked, table_blocked,
    table_recorded, table_released, table_spent, table_wf,
    touched, with_bucket, Admissions, ClientAdmissionBucket, ClientAdmissionTable, ClientPermit,
    KeyedWindowBudgetTable, Windows};

verus! {

pub struct Traffic {
    pub client_admission: ClientAdmissionTable,
    pub client_rates: KeyedWindowBudgetTable,
    pub global_rate: AtomicWindowBudget,
    pub client_response_budgets: KeyedWindowBudgetTable,
    pub network_response_budgets: KeyedWindowBudgetTable,
    pub global_response_budget: AtomicWindowBudget,
    pub client_abuse: KeyedWindowBudgetTable,
    pub network_abuse: KeyedWindowBudgetTable,
    pub global_abuse: AtomicWindowBucket,
}

/// The value of the budgets and breakers.
pub struct TrafficView {
    pub admissions: Admissions,
    pub next_serial: u64,
    pub client_rates: Windows,
    pub global_rate: Spent,
    pub client_bytes: Windows,
    pub network_bytes: Windows,
    pub global_bytes: Spent,
    pub client_abuse: Windows,
    pub network_abuse: Windows,
    pub global_abuse: AtomicWindowBucket,
}

impl View for Traffic {
    type V = TrafficView;

    open spec fn view(&self) -> TrafficView {
        TrafficView {
            admissions: self.client_admission@,
            next_serial: self.client_admission.next_serial,
            client_rates: self.client_rates@,
            global_rate: self.global_rate.spent,
            client_bytes: self.client_response_budgets@,
            network_bytes: self.network_response_budgets@,
            global_bytes: self.global_response_budget.spent,
            client_abuse: self.client_abuse@,
            network_abuse: self.network_abuse@,
            global_abuse: self.global_abuse,
        }
    }
}

/// No traffic so far.
pub open spec fn no_traffic() -> TrafficView {
    TrafficView {
        admissions: Seq::empty(),
        next_serial: 1,
        client_rates: Seq::empty(),
        global_rate: Spent { window: 0, count: 0 },
        client_bytes: Seq::empty(),
        network_bytes: Seq::empty(),
        global_bytes: Spent { window: 0, count: 0 },
        client_abuse: Seq::empty(),
        network_abuse: Seq::empty(),
        global_abuse: AtomicWindowBucket::fresh(),
    }
}

/// The key of the network that a client is counted under.
pub open spec fn counted_network(limits: AdmissionView, client: IpAddr) -> Seq<u8> {
    network_key_bytes(
        network_key(client, limits.network_abuse_ipv4_prefix, limits.network_abuse_ipv6_prefix),
    )
}

// ---- what each question does ---------------------------------------------------------

/// Whether a client gets a permit, with its serial, and the traffic behind the question.
pub open spec fn permit_asked(
    traffic: TrafficView,
    limits: AdmissionView,
    client: IpAddr,
    now: u64,
) -> (Option<u64>, TrafficView) {
    let key = client_key(client);
    let ready = prepared(traffic.admissions, key);
    let bucket = admission_bucket(traffic.admissions, key, traffic.next_serial);
    let next_serial = following(traffic.next_serial);
    if bucket.active >= limits.max_inflight_per_client {
        (None, TrafficView { admissions: with_bucket(ready, key, bucket), next_serial, ..traffic })
    } else {
        (
            Some(bucket.serial),
            TrafficView {
                admissions: with_bucket(
                    ready,
                    key,
                    ClientAdmissionBucket {
                        active: (bucket.active + 1) as u64,
                        last_access: now,
                        serial: bucket.serial,
                    },
                ),
                next_serial,
                ..traffic
            },
        )
    }
}

/// Whether a client passes its own breaker and that of its network, and the traffic behind the
/// question.
pub open spec fn abuse_question(
    traffic: TrafficView,
    limits: AdmissionView,
    client: Option<IpAddr>,
    now: u64,
) -> (bool, TrafficView) {
    match client {
        None => (true, traffic),
        Some(address) => {
            let own = client_key(address);
            let network = counted_network(limits, address);
            (
                abuse_passes(
                    touched(traffic.client_abuse, own, now),
                    now,
                    limits.client_abuse_window_secs,
                ) && abuse_passes(
                    touched(traffic.network_abuse, network, now),
                    now,
                    limits.network_abuse_window_secs,
                ),
                TrafficView {
                    client_abuse: table_asked(traffic.client_abuse, own, now),
                    network_abuse: table_asked(traffic.network_abuse, network, now),
                    ..traffic
                },
            )
        },
    }
}

/// Whether a violation of a client opens a breaker, and the traffic behind it.
pub open spec fn violation(
    traffic: TrafficView,
    limits: AdmissionView,
    client: Option<IpAddr>,
    now: u64,
) -> (bool, TrafficView) {
    match client {
        None => (false, traffic),
        Some(address) => {
            let own = client_key(address);
            let network = counted_network(limits, address);
            (
                abuse_opens(
                    touched(traffic.client_abuse, own, now),
                    now,
                    limits.client_abuse_window_secs,
                    limits.max_client_abuse_violations,
                ) || abuse_opens(
                    touched(traffic.network_abuse, network, now),
                    now,
                    limits.network_abuse_window_secs,
                    limits.max_network_abuse_violations,
                ),
                TrafficView {
                    client_abuse: table_recorded(
                        traffic.client_abuse,
                        own,
                        now,
                        limits.client_abuse_window_secs,
                        limits.client_abuse_cooldown_secs,
                        limits.max_client_abuse_violations,
                    ),
                    network_abuse: table_recorded(
                        traffic.network_abuse,
                        network,
                        now,
                        limits.network_abuse_window_secs,
                        limits.network_abuse_cooldown_secs,
                        limits.max_network_abuse_violations,
                    ),
                    ..traffic
                },
            )
        },
    }
}

/// Whether a client may ask once more this second, and the traffic behind the question.
pub open spec fn rate_question(
    traffic: TrafficView,
    limits: AdmissionView,
    client: Option<IpAddr>,
    now: u64,
) -> (bool, TrafficView) {
    match client {
        None => (true, traffic),
        Some(address) => {
            let key = client_key(address);
            let limit = limits.max_queries_per_client_per_second;
            (
                table_allows(traffic.client_rates, key, now, limit, 1),
                TrafficView {
                    client_rates: table_spent(traffic.client_rates, key, now, limit, 1),
                    ..traffic
                },
            )
        },
    }
}

pub open spec fn spent_or_kept(spent: Spent, now: u64, limit: usize, amount: usize) -> Spent {
    match spend(spent, now, limit, amount) {
        Some(next) => next,
        None => spent,
    }
}

/// Whether all clients together may ask once more this second.
pub open spec fn global_rate_question(traffic: TrafficView, limits: AdmissionView, now: u64) -> (
    bool,
    TrafficView,
) {
    let limit = limits.max_queries_per_second;
    (
        spend(traffic.global_rate, now, limit, 1) is Some,
        TrafficView { global_rate: spent_or_kept(traffic.global_rate, now, limit, 1), ..traffic },
    )
}

/// Whether the breaker for all clients together lets a request pass.
pub open spec fn global_abuse_question(traffic: TrafficView, limits: AdmissionView, now: u64) -> (
    bool,
    TrafficView,
) {
    if limits.ddos.max_global_abuse_violations == 0 {
        (true, traffic)
    } else {
        (
            abuse_passes(traffic.global_abuse, now, limits.ddos.global_abuse_window_secs),
            TrafficView {
                global_abuse: shared_asked(
                    traffic.global_abuse,
                    now,
                    limits.ddos.global_abuse_window_secs,
                ),
                ..traffic
            },
        )
    }
}

/// Whether a violation opens the breaker for all clients together.
pub open spec fn global_violation(traffic: TrafficView, limits: AdmissionView, now: u64) -> (
    bool,
    TrafficView,
) {
    let threshold = limits.ddos.max_global_abuse_violations;
    let window = limits.ddos.global_abuse_window_secs;
    if threshold == 0 {
        (false, traffic)
    } else {
        (
            abuse_opens(traffic.global_abuse, now, window, threshold),
            TrafficView {
                global_abuse: abuse_recorded(
                    traffic.global_abuse,
                    now,
                    window,
                    limits.ddos.global_abuse_cooldown_secs,
                    threshold,
                ),
                ..traffic
            },
        )
    }
}

/// Whether an answer to a client is within its budget of bytes.
pub open spec fn client_bytes_question(
    traffic: TrafficView,
    limits: AdmissionView,
    client: Option<IpAddr>,
    bytes: usize,
    now: u64,
) -> (bool, TrafficView) {
    let limit = limits.max_response_bytes_per_client_per_second;
    match client {
        None => (true, traffic),
        Some(address) => if bytes > limit {
            (false, traffic)
        } else {
            let key = client_key(address);
            (
                table_allows(traffic.client_bytes, key, now, limit, bytes),
                TrafficView {
                    client_bytes: table_spent(traffic.client_bytes, key, now, limit, bytes),
                    ..traffic
                },
            )
        },
    }
}

/// Whether an answer to a client is within the budget of bytes of its network.
pub open spec fn network_bytes_question(
    traffic: TrafficView,
    limits: AdmissionView,
    client: Option<IpAddr>,
    bytes: usize,
    now: u64,
) -> (bool, TrafficView) {
    let limit = limits.max_response_bytes_per_network_per_second;
    match client {
        None => (true, traffic),
        Some(address) => if bytes > limit {
            (false, traffic)
        } else {
            let key = counted_network(limits, address);
            (
                table_allows(traffic.network_bytes, key, now, limit, bytes),
                TrafficView {
                    network_bytes: table_spent(traffic.network_bytes, key, now, limit, bytes),
                    ..traffic
                },
            )
        },
    }
}

/// Whether an answer is within the budget of bytes for all clients together.
pub open spec fn global_bytes_question(
    traffic: TrafficView,
    limits: AdmissionView,
    bytes: usize,
    now: u64,
) -> (bool, TrafficView) {
    let limit = limits.max_response_bytes_per_second;
    (
        spend(traffic.global_bytes, now, limit, bytes) is Some,
        TrafficView {
            global_bytes: spent_or_kept(traffic.global_bytes, now, limit, bytes),
            ..traffic
        },
    )
}

/// Whether an incident that was kept is still under way, and the traffic with its blocks.
pub open spec fn incident_restored(
    traffic: TrafficView,
    limits: AdmissionView,
    client: IpAddr,
    expires_at_ms: u64,
    now_ms: u64,
    now: u64,
) -> (bool, TrafficView) {
    if expires_at_ms <= now_ms {
        (false, traffic)
    } else {
        let left = (expires_at_ms - now_ms) as u64;
        (
            true,
            TrafficView {
                client_abuse: table_blocked(traffic.client_abuse, client_key(client), now, left),
                network_abuse: table_blocked(
                    traffic.network_abuse,
                    counted_network(limits, client),
                    now,
                    left,
                ),
                ..traffic
            },
        )
    }
}

/// The traffic without the blocks of a client and its network.
pub open spec fn incident_revoked(traffic: TrafficView, limits: AdmissionView, client: IpAddr) -> TrafficView {
    TrafficView {
        client_abuse: table_released(traffic.client_abuse, client_key(client)),
        network_abuse: table_released(traffic.network_abuse, counted_network(limits, client)),
        ..traffic
    }
}

// ---- the questions -------------------------------------------------------------------

impl Traffic {
    pub open spec fn wf(&self) -> bool {
        &&& self.client_admission.wf()
        &&& self.client_rates.wf()
        &&& self.client_response_budgets.wf()
        &&& self.network_response_budgets.wf()
        &&& self.client_abuse.wf()
        &&& self.network_abuse.wf()
    }

    pub fn new() -> (r: Traffic)
        ensures
            r@ == no_traffic(),
            r.wf(),
    {
        Traffic {
            client_admission: ClientAdmissionTable::new(),
            client_rates: KeyedWindowBudgetTable::new(),
            global_rate: AtomicWindowBudget::new(),
            client_response_budgets: KeyedWindowBudgetTable::new(),
            network_response_budgets: KeyedWindowBudgetTable::new(),
            global_response_budget: AtomicWindowBudget::new(),
            client_abuse: KeyedWindowBudgetTable::new(),
            network_abuse: KeyedWindowBudgetTable::new(),
            global_abuse: AtomicWindowBucket::new(),
        }
    }

    /// Asks for a permit for one more request of a client.
    pub fn try_client_admission(
        &mut self,
        limits: &AdmissionConfig,
        client: Option<IpAddr>,
        now: u64,
    ) -> (r: Option<ClientPermit>)
        requires
            old(self).wf(),
        ensures
            match client {
                None => r is None && final(self)@ == old(self)@,
                Some(address) => {
                    let (serial, next) = permit_asked(old(self)@, limits@, address, now);
                    &&& final(self)@ == next
                    &&& match serial {
                        Some(serial) => r == Some(ClientPermit { client: address, serial }),
                        None => r is None,
                    }
                },
            },
            final(self).wf(),
    {
        match client {
            None => None,
            Some(address) => self.client_admission.try_acquire(
                address,
                limits.max_inflight_per_client,
                now,
            ),
        }
    }

    /// Hands a permit back.
    pub fn release(&mut self, permit: ClientPermit)
        requires
            old(self).wf(),
        ensures
            final(self)@ == (TrafficView { admissions: final(self)@.admissions, ..old(self)@ }),
            final(self)@.admissions == crate::traffic::handed_back(old(self)@.admissions, permit),
            final(self).wf(),
    {
        self.client_admission.release(permit);
    }

    fn network_of(limits: &AdmissionConfig, client: IpAddr) -> (r: Vec<u8>)
        ensures
            r@ == counted_network(limits@, client),
    {
        let key = abuse_network_key(
            client,
            limits.network_abuse_ipv4_prefix,
            limits.network_abuse_ipv6_prefix,
        );
        abuse_network_bytes(key)
    }

    /// Asks whether a client passes its own breaker and that of its network.
    pub fn allow_client_abuse(
        &mut self,
        limits: &AdmissionConfig,
        client: Option<IpAddr>,
        now: u64,
    ) -> (r: bool)
        requires
            old(self).wf(),
        ensures
            (r, final(self)@) == abuse_question(old(self)@, limits@, client, now),
            final(self).wf(),
    {
        match client {
            None => true,
            Some(address) => {
                let own = ip_key(address);
                let exact = self.client_abuse.abuse_allows(
                    &own,
                    now,
                    limits.client_abuse_window_secs,
                );
                let network = Traffic::network_of(limits, address);
                let wide = self.network_abuse.abuse_allows(
                    &network,
                    now,
                    limits.network_abuse_window_secs,
                );
                exact && wide
            },
        }
    }

    /// Counts a violation of a client. The result says whether a breaker opened.
    pub fn record_client_abuse(
        &mut self,
        limits: &AdmissionConfig,
        client: Option<IpAddr>,
        now: u64,
    ) -> (r: bool)
        requires
            old(self).wf(),
        ensures
            (r, final(self)@) == violation(old(self)@, limits@, client, now),
            final(self).wf(),
    {
        match client {
            None => false,
            Some(address) => {
                let own = ip_key(address);
                let exact = self.client_abuse.record_abuse(
                    &own,
                    now,
                    limits.client_abuse_window_secs,
                    limits.client_abuse_cooldown_secs,
                    limits.max_client_abuse_violations,
                );
                let network = Traffic::network_of(limits, address);
                let wide = self.network_abuse.record_abuse(
                    &network,
                    now,
                    limits.network_abuse_window_secs,
                    limits.network_abuse_cooldown_secs,
                    limits.max_network_abuse_violations,
                );
                exact || wide
            },
        }
    }

    pub fn allow_client_rate(
        &mut self,
        limits: &AdmissionConfig,
        client: Option<IpAddr>,
        now: u64,
    ) -> (r: bool)
        requires
            old(self).wf(),
        ensures
            (r, final(self)@) == rate_question(old(self)@, limits@, client, now),
            final(self).wf(),
    {
        match client {
            None => true,
            Some(address) => {
                let key = ip_key(address);
                self.client_rates.allow(&key, now, limits.max_queries_per_client_per_second, 1)
            },
        }
    }

    pub fn allow_global_rate(&mut self, limits: &AdmissionConfig, now: u64) -> (r: bool)
        requires
            old(self).wf(),
        ensures
            (r, final(self)@) == global_rate_question(old(self)@, limits@, now),
            final(self).wf(),
    {
        self.global_rate.allow(now, limits.max_queries_per_second, 1)
    }

    pub fn allow_global_abuse(&mut self, limits: &AdmissionConfig, now: u64) -> (r: bool)
        requires
            old(self).wf(),
        ensures
            (r, final(self)@) == global_abuse_question(old(self)@, limits@, now),
            final(self).wf(),
    {
        if limits.ddos.max_global_abuse_violations == 0 {
            return true;
        }
        self.global_abuse.shared_abuse_allows(now, limits.ddos.global_abuse_window_secs)
    }

    /// Counts a violation against all clients together. The result says whether the breaker
    /// opened.
    pub fn record_global_abuse(&mut self, limits: &AdmissionConfig, now: u64) -> (r: bool)
        requires
            old(self).wf(),
        ensures
            (r, final(self)@) == global_violation(old(self)@, limits@, now),
            final(self).wf(),
    {
        if limits.ddos.max_global_abuse_violations == 0 {
            return false;
        }
        self.global_abuse.record_abuse(
            now,
            limits.ddos.global_abuse_window_secs,
            limits.ddos.global_abuse_cooldown_secs,
            limits.ddos.max_global_abuse_violations,
        )
    }

    pub fn allow_client_response_bytes(
        &mut self,
        limits: &AdmissionConfig,
        client: Option<IpAddr>,
        bytes: usize,
        now: u64,
    ) -> (r: bool)
        requires
            old(self).wf(),
        ensures
            (r, final(self)@) == client_bytes_question(old(self)@, limits@, client, bytes, now),
            final(self).wf(),
    {
        let limit: usize = limits.max_response_bytes_per_client_per_second;
        match client {
            None => true,
            Some(address) => {
                if bytes > limit {
                    return false;
                }
                let key = ip_key(address);
                self.client_response_budgets.allow(&key, now, limit, bytes)
            },
        }
    }

    pub fn allow_network_response_bytes(
        &mut self,
        limits: &AdmissionConfig,
        client: Option<IpAddr>,
        bytes: usize,
        now: u64,
    ) -> (r: bool)
        requires
            old(self).wf(),
        ensures
            (r, final(self)@) == network_bytes_question(old(self)@, limits@, client, bytes, now),
            final(self).wf(),
    {
        let limit: usize = limits.max_response_bytes_per_network_per_second;
        match client {
            None => true,
            Some(address) => {
                if bytes > limit {
                    return false;
                }
                let key = Traffic::network_of(limits, address);
                self.network_response_budgets.allow(&key, now, limit, bytes)
            },
        }
    }

    pub fn allow_global_response_bytes(
        &mut self,
        limits: &AdmissionConfig,
        bytes: usize,
        now: u64,
    ) -> (r: bool)
        requires
            old(self).wf(),
        ensures
            (r, final(self)@) == global_bytes_question(old(self)@, limits@, bytes, now),
            final(self).wf(),
    {
        self.global_response_budget.allow(now, limits.max_response_bytes_per_second, bytes)
    }

    /// Blocks a client and its network again for what is left of an incident.
    pub fn restore_abuse_incident(
        &mut self,
        limits: &AdmissionConfig,
        client: IpAddr,
        expires_at_ms: u64,
        now_ms: u64,
        now: u64,
    ) -> (r: bool)
        requires
            old(self).wf(),
        ensures
            (r, final(self)@) == incident_restored(
                old(self)@,
                limits@,
                client,
                expires_at_ms,
                now_ms,
                now,
            ),
            final(self).wf(),
    {
        if expires_at_ms <= now_ms {
            return false;
        }
        let left: u64 = expires_at_ms - now_ms;
        let own = ip_key(client);
        self.client_abuse.restore_blocked(&own, now, left);
        let network = Traffic::network_of(limits, client);
        self.network_abuse.restore_blocked(&network, now, left);
        true
    }

    /// Takes back the blocks of a client and its network.
    pub fn revoke_abuse_incident(&mut self, limits: &AdmissionConfig, client: IpAddr)
        requires
            old(self).wf(),
        ensures
            final(self)@ == incident_revoked(old(self)@, limits@, client),
            final(self).wf(),
    {
        let own = ip_key(client);
        self.client_abuse.release_blocked(&own);
        let network = Traffic::network_of(limits, client);
        self.network_abuse.release_blocked(&network);
    }

    /// Forgets the breakers of clients and networks. The result is how many there were.
    pub fn clear_abuse_state(&mut self) -> (r: usize)
        requires
            old(self).wf(),
        ensures
            r == old(self)@.client_abuse.len() + old(self)@.network_abuse.len(),
            final(self)@ == (TrafficView {
                client_abuse: Seq::empty(),
                network_abuse: Seq::empty(),
                ..old(self)@
            }),
            final(self).wf(),
    {
        let removed: usize = self.client_abuse.len() + self.network_abuse.len();
        self.client_abuse.clear();
        self.network_abuse.clear();
        removed
    }
}

/// The requests in flight after a permit was handed back.
pub open spec fn handed_back(slots: Admissions, permit: ClientPermit) -> Admissions {
    let key = client_key(permit.client);
    let bucket = bucket_of(slots, key);
    if find_slot(slots, key) is Some && bucket.serial == permit.serial
        && bucket.active > 0 {
        with_bucket(
            slots,
            key,
            ClientAdmissionBucket {
                active: (bucket.active - 1) as u64,
                last_access: 0,
                serial: bucket.serial,
            },
        )
    } else {
        slots
    }
}

// ---- laws ----------------------------------------------------------------------------

/// A restored incident blocks the client and its network until it ends, at least for a second.
pub proof fn restored_incidents_block(
    traffic: TrafficView,
    limits: AdmissionView,
    client: IpAddr,
    expires_at_ms: u64,
    now_ms: u64,
    now: u64,
)
    requires
        table_wf(traffic.client_abuse),
        table_wf(traffic.network_abuse),
        now_ms < expires_at_ms,
    ensures
        ({
            let next = incident_restored(traffic, limits, client, expires_at_ms, now_ms, now).1;
            let end = crate::buckets::saturating(
                seconds(now),
                crate::buckets::at_least_one(((expires_at_ms - now_ms) / 1000) as u64),
            );
            &&& bucket_of(next.client_abuse, client_key(client)).blocked_until == end
            &&& bucket_of(
                next.network_abuse,
                counted_network(limits, client),
            ).blocked_until == end
        }),
{
    let left = (expires_at_ms - now_ms) as u64;
    blocks_are_seen(traffic.client_abuse, client_key(client), now, left);
    blocks_are_seen(
        traffic.network_abuse,
        counted_network(limits, client),
        now,
        left,
    );
}

/// A client that is blocked, or whose network is, does not pass.
pub proof fn blocked_clients_do_not_pass(
    traffic: TrafficView,
    limits: AdmissionView,
    client: IpAddr,
    now: u64,
)
    requires
        touched(traffic.client_abuse, client_key(client), now).blocked_until > seconds(now)
            || touched(
            traffic.network_abuse,
            counted_network(limits, client),
            now,
        ).blocked_until > seconds(now),
    ensures
        !abuse_question(traffic, limits, Some(client), now).0,
{
}

/// A permit that is handed back makes room for another request of the client.
pub proof fn handed_back_permits_are_free(
    traffic: TrafficView,
    limits: AdmissionView,
    client: IpAddr,
    now: u64,
)
    requires
        table_wf(traffic.admissions),
        permit_asked(traffic, limits, client, now).0 is Some,
    ensures
        ({
            let (serial, next) = permit_asked(traffic, limits, client, now);
            let after = handed_back(
                next.admissions,
                ClientPermit { client, serial: serial->0 },
            );
            bucket_of(after, client_key(client)).active == admission_bucket(
                traffic.admissions,
                client_key(client),
                traffic.next_serial,
            ).active
        }),
{
    let key = client_key(client);
    let ready = prepared(traffic.admissions, key);
    let bucket = admission_bucket(traffic.admissions, key, traffic.next_serial);
    let (serial, next) = permit_asked(traffic, limits, client, now);
    let used = ClientAdmissionBucket {
        active: (bucket.active + 1) as u64,
        last_access: now,
        serial: bucket.serial,
    };
    let freed = ClientAdmissionBucket {
        active: bucket.active,
        last_access: 0,
        serial: bucket.serial,
    };
    crate::tables::prepared_holds_the_key(traffic.admissions, key);
    crate::tables::with_bucket_is_read_back(ready, key, used, key);
    crate::tables::with_bucket_keeps_wf(ready, key, used);
    let held = with_bucket(ready, key, used);
    find_slot_is_exact(held, key);
    if find_slot(held, key) is None {
        find_slot_is_exact(ready, key);
        let at = find_slot(ready, key)->0;
        assert(held[at].key == key);
    }
    crate::tables::with_bucket_is_read_back(held, key, freed, key);
}

/// Revoking an incident again changes nothing.
pub proof fn revoking_again_changes_nothing(
    traffic: TrafficView,
    limits: AdmissionView,
    client: IpAddr,
)
    requires
        table_wf(traffic.client_abuse),
        table_wf(traffic.network_abuse),
    ensures
        ({
            let once = incident_revoked(traffic, limits, client);
            incident_revoked(once, limits, client) == once
        }),
{
    releasing_again_changes_nothing(traffic.client_abuse, client_key(client));
    releasing_again_changes_nothing(
        traffic.network_abuse,
        counted_network(limits, client),
    );
}

/// A client whose incident was revoked passes again, at any time.
pub proof fn revoked_clients_pass(
    traffic: TrafficView,
    limits: AdmissionView,
    client: IpAddr,
    now: u64,
)
    requires
        table_wf(traffic.client_abuse),
        table_wf(traffic.network_abuse),
        limits.client_abuse_window_secs > 0,
        limits.network_abuse_window_secs > 0,
    ensures
        abuse_question(incident_revoked(traffic, limits, client), limits, Some(client), now).0,
{
    let next = incident_revoked(traffic, limits, client);
    released_keys_pass(traffic.client_abuse, client_key(client));
    released_keys_pass(traffic.network_abuse, counted_network(limits, client));
    prepared_buckets_are_kept_or_new(next.client_abuse, client_key(client));
    prepared_buckets_are_kept_or_new(
        next.network_abuse,
        counted_network(limits, client),
    );
}

/// A restored incident keeps its client out until it ends, where the table is not so full that it
/// lets go of keys.
pub proof fn restored_clients_do_not_pass(
    traffic: TrafficView,
    limits: AdmissionView,
    client: IpAddr,
    expires_at_ms: u64,
    now_ms: u64,
    now: u64,
    later: u64,
)
    requires
        table_wf(traffic.client_abuse),
        table_wf(traffic.network_abuse),
        traffic.client_abuse.len() + 1 < MAX_CLIENT_RATE_ENTRIES,
        now_ms < expires_at_ms,
        seconds(later) < crate::buckets::saturating(
            seconds(now),
            crate::buckets::at_least_one(((expires_at_ms - now_ms) / 1000) as u64),
        ),
    ensures
        ({
            let next = incident_restored(traffic, limits, client, expires_at_ms, now_ms, now).1;
            !abuse_question(next, limits, Some(client), later).0
        }),
{
    let next = incident_restored(traffic, limits, client, expires_at_ms, now_ms, now).1;
    let key = client_key(client);
    restored_incidents_block(traffic, limits, client, expires_at_ms, now_ms, now);
    prepared_holds_the_key(traffic.client_abuse, key);
    find_slot_is_exact(prepared(traffic.client_abuse, key), key);
    find_slot_is_exact(next.client_abuse, key);
    let at = find_slot(prepared(traffic.client_abuse, key), key)->0;
    assert(next.client_abuse[at].key == key);
    assert(prepared(next.client_abuse, key) == next.client_abuse);
}

/// Requests that pass the breaker for all clients together do not put off its opening: a violation
/// opens it or not as it would have without the question.
pub proof fn questions_do_not_put_off_the_breaker(
    traffic: TrafficView,
    limits: AdmissionView,
    asked: u64,
    now: u64,
)
    requires
        asked <= now,
    ensures
        global_violation(global_abuse_question(traffic, limits, asked).1, limits, now).0
            == global_violation(traffic, limits, now).0,
{
    questions_forget_no_violation(
        traffic.global_abuse,
        asked,
        now,
        limits.ddos.global_abuse_window_secs,
        limits.ddos.max_global_abuse_violations,
    );
}

// ---- what clients may do -------------------------------------------------------------

/// A client may ask as often in a second as its limit says, however often others ask: the next query
/// is within it exactly where one more than those of the same second is, and counts for the client
/// alone.
pub proof fn clients_have_their_own_rate(
    traffic: TrafficView,
    limits: AdmissionView,
    client: IpAddr,
    other: IpAddr,
    now: u64,
)
    requires
        table_wf(traffic.client_rates),
        traffic.client_rates.len() < 4096,
        limits.max_queries_per_client_per_second <= u32::MAX,
    ensures
        ({
            let limit = limits.max_queries_per_client_per_second;
            let (allowed, next) = rate_question(traffic, limits, Some(client), now);
            let asked = used_in(bucket_of(traffic.client_rates, client_key(client)).spent, now);
            let then = used_in(bucket_of(next.client_rates, client_key(client)).spent, now);
            &&& allowed <==> asked + 1 <= limit
            &&& then == (if allowed {
                asked + 1
            } else {
                asked
            })
            &&& other != client ==> bucket_of(next.client_rates, client_key(other)) == bucket_of(
                traffic.client_rates,
                client_key(other),
            )
            &&& rate_question(traffic, limits, None, now) == (true, traffic)
        }),
{
    crate::tables::keys_have_their_own_budget(
        traffic.client_rates,
        client_key(client),
        client_key(other),
        now,
        limits.max_queries_per_client_per_second,
        1,
    );
    if other != client && client_key(other) == client_key(client) {
        crate::buckets::client_keys_are_distinct(other, client);
    }
}

/// All clients together may ask as often in a second as the limit for all says.
pub proof fn all_clients_share_a_rate(traffic: TrafficView, limits: AdmissionView, now: u64)
    requires
        limits.max_queries_per_second <= u32::MAX,
    ensures
        ({
            let (allowed, next) = global_rate_question(traffic, limits, now);
            let asked = used_in(traffic.global_rate, now);
            &&& allowed <==> asked + 1 <= limits.max_queries_per_second
            &&& used_in(next.global_rate, now) == (if allowed {
                asked + 1
            } else {
                asked
            })
        }),
{
    crate::buckets::what_is_within_the_budget_is_allowed(
        traffic.global_rate,
        now,
        limits.max_queries_per_second,
        1,
    );
}

/// Answers of some bytes are sent exactly while those of the same second, with them, stay within the
/// limit: that of the client, that of its network and that of all together. A caller without an
/// address has no limit of its own.
pub proof fn answers_are_sent_within_the_budgets(
    traffic: TrafficView,
    limits: AdmissionView,
    client: IpAddr,
    bytes: usize,
    now: u64,
)
    requires
        table_wf(traffic.client_bytes),
        table_wf(traffic.network_bytes),
        traffic.client_bytes.len() < 4096,
        traffic.network_bytes.len() < 4096,
        limits.max_response_bytes_per_client_per_second <= u32::MAX,
        limits.max_response_bytes_per_network_per_second <= u32::MAX,
        limits.max_response_bytes_per_second <= u32::MAX,
        bytes > 0,
    ensures
        ({
            let network = counted_network(limits, client);
            let own = used_in(bucket_of(traffic.client_bytes, client_key(client)).spent, now);
            let wide = used_in(bucket_of(traffic.network_bytes, network).spent, now);
            let all = used_in(traffic.global_bytes, now);
            &&& client_bytes_question(traffic, limits, Some(client), bytes, now).0 <==> own + bytes
                <= limits.max_response_bytes_per_client_per_second
            &&& network_bytes_question(traffic, limits, Some(client), bytes, now).0 <==> wide + bytes
                <= limits.max_response_bytes_per_network_per_second
            &&& global_bytes_question(traffic, limits, bytes, now).0 <==> all + bytes
                <= limits.max_response_bytes_per_second
            &&& client_bytes_question(traffic, limits, None, bytes, now) == (true, traffic)
            &&& network_bytes_question(traffic, limits, None, bytes, now) == (true, traffic)
            &&& own + bytes <= limits.max_response_bytes_per_client_per_second ==> used_in(
                bucket_of(
                    client_bytes_question(
                        traffic,
                        limits,
                        Some(client),
                        bytes,
                        now,
                    ).1.client_bytes,
                    client_key(client),
                ).spent,
                now,
            ) == own + bytes
            &&& wide + bytes <= limits.max_response_bytes_per_network_per_second ==> used_in(
                bucket_of(
                    network_bytes_question(
                        traffic,
                        limits,
                        Some(client),
                        bytes,
                        now,
                    ).1.network_bytes,
                    network,
                ).spent,
                now,
            ) == wide + bytes
            &&& all + bytes <= limits.max_response_bytes_per_second ==> used_in(
                global_bytes_question(traffic, limits, bytes, now).1.global_bytes,
                now,
            ) == all + bytes
        }),
{
    let key = client_key(client);
    let network = counted_network(limits, client);
    crate::tables::keys_have_their_own_budget(
        traffic.client_bytes,
        key,
        key,
        now,
        limits.max_response_bytes_per_client_per_second,
        bytes,
    );
    crate::tables::keys_have_their_own_budget(
        traffic.network_bytes,
        network,
        network,
        now,
        limits.max_response_bytes_per_network_per_second,
        bytes,
    );
    crate::buckets::what_is_within_the_budget_is_allowed(
        traffic.global_bytes,
        now,
        limits.max_response_bytes_per_second,
        bytes,
    );
}

/// A client has as many requests in flight as its limit says: it gets a permit exactly where it holds
/// fewer, and holds one more then.
pub proof fn clients_get_permits_up_to_their_limit(
    traffic: TrafficView,
    limits: AdmissionView,
    client: IpAddr,
    now: u64,
)
    requires
        table_wf(traffic.admissions),
        traffic.admissions.len() < 4096,
    ensures
        ({
            let key = client_key(client);
            let held = bucket_of(traffic.admissions, key).active;
            let (permit, next) = permit_asked(traffic, limits, client, now);
            &&& permit is Some <==> held < limits.max_inflight_per_client
            &&& bucket_of(next.admissions, key).active == (if permit is Some {
                held + 1
            } else {
                held as int
            })
        }),
{
    let key = client_key(client);
    crate::tables::tables_with_room_keep_their_buckets(traffic.admissions, key, key);
    prepared_holds_the_key(traffic.admissions, key);
    let bucket = admission_bucket(traffic.admissions, key, traffic.next_serial);
    let ready = prepared(traffic.admissions, key);
    crate::tables::with_bucket_is_read_back(ready, key, bucket, key);
    crate::tables::with_bucket_is_read_back(
        ready,
        key,
        ClientAdmissionBucket {
            active: (bucket.active + 1) as u64,
            last_access: now,
            serial: bucket.serial,
        },
        key,
    );
}

/// A client passes exactly where neither its own block nor that of its network lasts any longer.
pub proof fn blocked_clients_and_networks_do_not_pass(
    traffic: TrafficView,
    limits: AdmissionView,
    client: IpAddr,
    now: u64,
)
    requires
        table_wf(traffic.client_abuse),
        table_wf(traffic.network_abuse),
        traffic.client_abuse.len() < 4096,
        traffic.network_abuse.len() < 4096,
        limits.client_abuse_window_secs > 0,
        limits.network_abuse_window_secs > 0,
    ensures
        abuse_question(traffic, limits, Some(client), now).0 <==> {
            let second = now / 1_000_000;
            &&& bucket_of(traffic.client_abuse, client_key(client)).blocked_until <= second
            &&& bucket_of(traffic.network_abuse, counted_network(limits, client)).blocked_until
                <= second
        },
        abuse_question(traffic, limits, None, now) == (true, traffic),
{
    let key = client_key(client);
    let network = counted_network(limits, client);
    crate::tables::tables_with_room_keep_their_buckets(traffic.client_abuse, key, key);
    crate::tables::tables_with_room_keep_their_buckets(traffic.network_abuse, network, network);
}

/// The violation that brings the number of those of a client in one second to its threshold opens
/// the client's breaker: from then on the client does not pass until the cooldown is over.
pub proof fn violations_open_the_breaker_of_the_client(
    traffic: TrafficView,
    limits: AdmissionView,
    client: IpAddr,
    now: u64,
    later: u64,
)
    requires
        table_wf(traffic.client_abuse),
        table_wf(traffic.network_abuse),
        traffic.client_abuse.len() < 4095,
        traffic.network_abuse.len() < 4095,
        1 <= limits.max_client_abuse_violations <= u32::MAX,
        bucket_of(traffic.client_abuse, client_key(client)).spent.window == now / 1_000_000,
        bucket_of(traffic.client_abuse, client_key(client)).spent.count + 1
            >= limits.max_client_abuse_violations,
        1 <= limits.client_abuse_cooldown_secs <= u32::MAX,
        limits.client_abuse_window_secs > 0,
        limits.network_abuse_window_secs > 0,
        now / 1_000_000 <= later / 1_000_000 < now / 1_000_000 + limits.client_abuse_cooldown_secs,
        now / 1_000_000 <= u32::MAX,
    ensures
        violation(traffic, limits, Some(client), now).0,
        !abuse_question(
            violation(traffic, limits, Some(client), now).1,
            limits,
            Some(client),
            later,
        ).0,
{
    let key = client_key(client);
    let network = counted_network(limits, client);
    crate::tables::violations_are_counted_by_key(
        traffic.client_abuse,
        key,
        key,
        now,
        limits.client_abuse_window_secs,
        limits.client_abuse_cooldown_secs,
        limits.max_client_abuse_violations,
    );
    crate::tables::violations_are_counted_by_key(
        traffic.network_abuse,
        network,
        network,
        now,
        limits.network_abuse_window_secs,
        limits.network_abuse_cooldown_secs,
        limits.max_network_abuse_violations,
    );
    let before = bucket_of(traffic.client_abuse, key);
    assert(abuse_opens(
        before,
        now,
        limits.client_abuse_window_secs,
        limits.max_client_abuse_violations,
    ));
    blocked_clients_and_networks_do_not_pass(
        violation(traffic, limits, Some(client), now).1,
        limits,
        client,
        later,
    );
}

/// In the beginning no client has asked anything: nothing is counted, blocked or in flight.
pub proof fn traffic_starts_with_nothing()
    ensures
        no_traffic().admissions.len() == 0,
        no_traffic().client_rates.len() == 0,
        no_traffic().client_bytes.len() == 0 && no_traffic().network_bytes.len() == 0,
        no_traffic().client_abuse.len() == 0 && no_traffic().network_abuse.len() == 0,
        no_traffic().global_abuse.blocked_until == 0,
        no_traffic().global_rate.count == 0 && no_traffic().global_bytes.count == 0,
{
}

/// An incident that is not over is restored for the milliseconds that are left of it, for the client
/// and for its network; one that is over changes nothing.
pub proof fn incidents_are_restored_while_they_last(
    traffic: TrafficView,
    limits: AdmissionView,
    client: IpAddr,
    expires_at_ms: u64,
    now_ms: u64,
    now: u64,
)
    ensures
        ({
            let (restored, after) = incident_restored(
                traffic,
                limits,
                client,
                expires_at_ms,
                now_ms,
                now,
            );
            &&& restored <==> now_ms < expires_at_ms
            &&& !restored ==> after == traffic
            &&& restored ==> after == (TrafficView {
                client_abuse: table_blocked(
                    traffic.client_abuse,
                    client_key(client),
                    now,
                    (expires_at_ms - now_ms) as u64,
                ),
                network_abuse: table_blocked(
                    traffic.network_abuse,
                    counted_network(limits, client),
                    now,
                    (expires_at_ms - now_ms) as u64,
                ),
                ..traffic
            })
        }),
{
}

/// The violation that brings the number of those of all clients in one second to the threshold opens
/// the breaker for all of them until the cooldown is over. Without a threshold none does.
pub proof fn violations_open_the_breaker_for_all(
    traffic: TrafficView,
    limits: AdmissionView,
    now: u64,
)
    ensures
        limits.ddos.max_global_abuse_violations == 0 ==> global_violation(traffic, limits, now) == (
            false,
            traffic,
        ),
        1 <= limits.ddos.max_global_abuse_violations <= u32::MAX
            && traffic.global_abuse.spent.window == now / 1_000_000
            && traffic.global_abuse.spent.count + 1 >= limits.ddos.max_global_abuse_violations
            && limits.ddos.global_abuse_window_secs > 0 && 1 <= limits.ddos.global_abuse_cooldown_secs
            <= u32::MAX && now / 1_000_000 <= u32::MAX ==> global_violation(traffic, limits, now).0
            && global_violation(traffic, limits, now).1.global_abuse.blocked_until == now / 1_000_000
            + limits.ddos.global_abuse_cooldown_secs,
{
}

} // verus!
