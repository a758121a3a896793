//! The resolver that queries are forwarded to: its settings, and what is believed of its
//! answers.
use vstd::prelude::*;
use vstd::string::*;
use vstd::utf8::is_ascii_chars;

use crate::config::{UpstreamConfig, UpstreamTransport};
use crate::dns::{alias_rdata, record_views, AnswerView, DnsAnswer, DnsAnswerRecord, DnsQuery, RecordView};
use crate::names::{dns_name, has_host_labels, host_labels, normal, normalize_chars, valid_dns_name};
use crate::net::{address, parse_address, socket, IpAddr, SocketAddr};
use crate::policy::{ErrorView, PolicyError};
use crate::query::{find_name_end, NameView};
use crate::text::{byte_len, decimal, ending_in_number, joined, same, str_len, to_chars};

verus! {

pub const MAX_UPSTREAM_OUTSTANDING: usize = 4_096;

pub const MAX_UPSTREAM_ATTEMPTS: u32 = 8;

pub const MAX_UPSTREAM_TIMEOUT_MS: u64 = 60_000;

// ---- settings ------------------------------------------------------------------------

/// A name that a certificate may be checked against: an address, or a name of host labels.
pub open spec fn tls_name(name: Seq<char>) -> bool {
    &&& name.len() > 0
    &&& byte_len(name) <= 253
    &&& is_ascii_chars(name)
    &&& address(name) is Some || host_labels(name)
}

pub fn valid_tls_server_name(name: &str) -> (r: bool)
    ensures
        r == tls_name(name@),
{
    let chars = to_chars(name);
    if chars.len() == 0 || str_len(name) > 253 || !name.is_ascii() {
        return false;
    }
    parse_address(&chars).is_some() || has_host_labels(&chars)
}

pub open spec fn unspecified(ip: IpAddr) -> bool {
    match ip {
        IpAddr::V4(value) => value == 0,
        IpAddr::V6(value) => value == 0,
    }
}

pub open spec fn multicast(ip: IpAddr) -> bool {
    match ip {
        IpAddr::V4(value) => 0xe000_0000 <= value <= 0xefff_ffff,
        IpAddr::V6(value) => value >= 0xff00_0000_0000_0000_0000_0000_0000_0000,
    }
}

pub open spec fn same_family(a: IpAddr, b: IpAddr) -> bool {
    a is V4 <==> b is V4
}

/// Whether queries to the resolver would come back to the listener.
pub open spec fn same_endpoint(resolver: SocketAddr, listener: SocketAddr) -> bool {
    ||| resolver == listener
    ||| resolver.port == listener.port && unspecified(listener.ip) && same_family(
        resolver.ip,
        listener.ip,
    )
}

/// What is wrong with the settings of the resolver.
pub open spec fn upstream_fault(upstream: UpstreamConfig, listen: Seq<char>) -> Option<Seq<char>> {
    let ip = address(upstream.resolver_ip@);
    let needs_name = upstream.transport == UpstreamTransport::Tls || upstream.transport
        == UpstreamTransport::Doh || upstream.transport == UpstreamTransport::Doq;
    if ip is None {
        Some("resolver_ip must be an IP address literal"@)
    } else if upstream.port == 0 {
        Some("port must be non-zero"@)
    } else if upstream.query_timeout_ms == 0 || upstream.query_timeout_ms
        > MAX_UPSTREAM_TIMEOUT_MS {
        Some(
            "query_timeout_ms must be between 1 and "@ + decimal(MAX_UPSTREAM_TIMEOUT_MS as nat),
        )
    } else if upstream.max_attempts == 0 || upstream.max_attempts > MAX_UPSTREAM_ATTEMPTS
        || upstream.max_outstanding == 0 || upstream.max_outstanding > MAX_UPSTREAM_OUTSTANDING {
        Some(
            "max_attempts must be between 1 and "@ + decimal(MAX_UPSTREAM_ATTEMPTS as nat) + (
            "; max_outstanding must be between 1 and "@ + decimal(MAX_UPSTREAM_OUTSTANDING as nat)),
        )
    } else if upstream.breaker_failures == 0 || upstream.breaker_cooldown_secs == 0 {
        Some("breaker_failures and breaker_cooldown_secs must be non-zero"@)
    } else if needs_name && (upstream.tls_server_name is None || !tls_name(
        upstream.tls_server_name->0@,
    )) {
        Some("tls_server_name must be a valid ASCII DNS name or IP literal"@)
    } else if unspecified(ip->0) || multicast(ip->0) || ip->0 == IpAddr::V4(0xffff_ffff) {
        Some("resolver must not be unspecified or multicast"@)
    } else if socket(listen) is None {
        Some("server.listen must be a socket address before configuring upstream"@)
    } else if same_endpoint(SocketAddr { ip: ip->0, port: upstream.port, scope: 0 }, socket(listen)->0) {
        Some("upstream must not resolve to the listener endpoint"@)
    } else {
        None
    }
}

fn is_unspecified(ip: IpAddr) -> (r: bool)
    ensures
        r == unspecified(ip),
{
    match ip {
        IpAddr::V4(value) => value == 0,
        IpAddr::V6(value) => value == 0,
    }
}

fn is_multicast(ip: IpAddr) -> (r: bool)
    ensures
        r == multicast(ip),
{
    match ip {
        IpAddr::V4(value) => 0xe000_0000 <= value && value <= 0xefff_ffff,
        IpAddr::V6(value) => value >= 0xff00_0000_0000_0000_0000_0000_0000_0000,
    }
}

fn is_same_endpoint(resolver: SocketAddr, listener: SocketAddr) -> (r: bool)
    ensures
        r == same_endpoint(resolver, listener),
{
    let family = match (resolver.ip, listener.ip) {
        (IpAddr::V4(_), IpAddr::V4(_)) => true,
        (IpAddr::V6(_), IpAddr::V6(_)) => true,
        _ => false,
    };
    resolver == listener || (resolver.port == listener.port && is_unspecified(listener.ip)
        && family)
}

fn refuse(reason: &str) -> (r: Result<(), PolicyError>)
    ensures
        r is Err,
        r->Err_0@ == (ErrorView::InvalidUpstream { reason: reason@ }),
{
    Err(PolicyError::InvalidUpstream { reason: reason.to_owned() })
}

/// Checks the settings of the resolver. `listen` is the address of the listener.
pub fn validate_upstream(upstream: &UpstreamConfig, listen: &str) -> (r: Result<(), PolicyError>)
    ensures
        match upstream_fault(*upstream, listen@) {
            Some(reason) => r is Err && r->Err_0@ == (ErrorView::InvalidUpstream { reason }),
            None => r is Ok,
        },
{
    let ip = match IpAddr::parse(upstream.resolver_ip.as_str()) {
        Some(ip) => ip,
        None => {
            return refuse("resolver_ip must be an IP address literal");
        },
    };
    if upstream.port == 0 {
        return refuse("port must be non-zero");
    }
    if upstream.query_timeout_ms == 0 || upstream.query_timeout_ms > MAX_UPSTREAM_TIMEOUT_MS {
        return Err(
            PolicyError::InvalidUpstream {
                reason: ending_in_number(
                    "query_timeout_ms must be between 1 and ",
                    MAX_UPSTREAM_TIMEOUT_MS,
                ),
            },
        );
    }
    if upstream.max_attempts == 0 || upstream.max_attempts > MAX_UPSTREAM_ATTEMPTS
        || upstream.max_outstanding == 0 || upstream.max_outstanding > MAX_UPSTREAM_OUTSTANDING {
        let first = ending_in_number(
            "max_attempts must be between 1 and ",
            MAX_UPSTREAM_ATTEMPTS as u64,
        );
        let second = ending_in_number(
            "; max_outstanding must be between 1 and ",
            MAX_UPSTREAM_OUTSTANDING as u64,
        );
        return Err(
            PolicyError::InvalidUpstream { reason: joined(first.as_str(), second.as_str()) },
        );
    }
    if upstream.breaker_failures == 0 || upstream.breaker_cooldown_secs == 0 {
        return refuse("breaker_failures and breaker_cooldown_secs must be non-zero");
    }
    if upstream.transport == UpstreamTransport::Tls || upstream.transport == UpstreamTransport::Doh
        || upstream.transport == UpstreamTransport::Doq {
        let named = match &upstream.tls_server_name {
            Some(name) => valid_tls_server_name(name.as_str()),
            None => false,
        };
        if !named {
            return refuse("tls_server_name must be a valid ASCII DNS name or IP literal");
        }
    }
    if is_unspecified(ip) || is_multicast(ip) || ip == IpAddr::V4(0xffff_ffff) {
        return refuse("resolver must not be unspecified or multicast");
    }
    let listener = match SocketAddr::parse(listen) {
        Some(listener) => listener,
        None => {
            return refuse("server.listen must be a socket address before configuring upstream");
        },
    };
    if is_same_endpoint(SocketAddr { ip, port: upstream.port, scope: 0 }, listener) {
        return refuse("upstream must not resolve to the listener endpoint");
    }
    Ok(())
}

/// What the resolver's client is told.
#[derive(Clone, Debug, PartialEq, Eq)]
pub struct DnsResolverConfig {
    pub resolver_ip: String,
    pub port: u16,
    pub query_timeout_ms: u64,
    pub max_attempts: u32,
}

pub fn resolver_config(upstream: &UpstreamConfig) -> (r: DnsResolverConfig)
    ensures
        r.resolver_ip@ == upstream.resolver_ip@,
        r.port == upstream.port,
        r.query_timeout_ms == upstream.query_timeout_ms,
        r.max_attempts == upstream.max_attempts,
{
    DnsResolverConfig {
        resolver_ip: upstream.resolver_ip.clone(),
        port: upstream.port,
        query_timeout_ms: upstream.query_timeout_ms,
        max_attempts: upstream.max_attempts,
    }
}

/// The number of exchanges that may be under way: at least one, and bounded.
pub fn outstanding_limit(max_outstanding: usize) -> (r: usize)
    ensures
        1 <= r <= MAX_UPSTREAM_OUTSTANDING,
        1 <= max_outstanding <= MAX_UPSTREAM_OUTSTANDING ==> r == max_outstanding,
        max_outstanding == 0 ==> r == 1,
        max_outstanding > MAX_UPSTREAM_OUTSTANDING ==> r == MAX_UPSTREAM_OUTSTANDING,
{
    if max_outstanding == 0 {
        1
    } else if max_outstanding > MAX_UPSTREAM_OUTSTANDING {
        MAX_UPSTREAM_OUTSTANDING
    } else {
        max_outstanding
    }
}

// ---- answers -------------------------------------------------------------------------

/// An IPv4 address that no public name should have.
pub open spec fn inner_ipv4(b: Seq<u8>) -> bool {
    ||| b[0] == 10
    ||| b[0] == 172 && 16 <= b[1] <= 31
    ||| b[0] == 192 && b[1] == 168
    ||| b[0] == 127
    ||| b[0] == 169 && b[1] == 254
    ||| 224 <= b[0] <= 239
    ||| b[0] == 0 && b[1] == 0 && b[2] == 0 && b[3] == 0
    ||| b[0] == 255 && b[1] == 255 && b[2] == 255 && b[3] == 255
}

/// The leading bytes are zero.
pub open spec fn zeros(b: Seq<u8>, count: int) -> bool {
    forall|i: int| 0 <= i < count ==> b[i] == 0
}

/// An IPv6 address that no public name should have.
pub open spec fn inner_ipv6(b: Seq<u8>) -> bool {
    ||| b[0] == 0xfc || b[0] == 0xfd
    ||| b[0] == 0xfe && 0x80 <= b[1] <= 0xbf
    ||| b[0] == 0xff
    ||| zeros(b, 15) && b[15] <= 1
}

/// What is wrong with one record of an answer.
pub open spec fn record_fault(
    record: RecordView,
    qtype: u16,
    qclass: u16,
    reject_private: bool,
) -> Option<Seq<char>> {
    let rtype = record.rtype;
    if !dns_name(normal(record.name)) || record.rclass != qclass || (qtype != 255 && rtype != qtype
        && rtype != 5) {
        Some("upstream_question_mismatch"@)
    } else if (rtype == 1 && record.rdata.len() != 4) || (rtype == 28 && record.rdata.len() != 16)
        || (rtype == 5 && !alias_rdata(record.rdata)) {
        Some("upstream_malformed"@)
    } else if reject_private && ((rtype == 1 && inner_ipv4(record.rdata)) || (rtype == 28
        && inner_ipv6(record.rdata))) {
        Some("upstream_rebinding"@)
    } else {
        None
    }
}

/// The first fault of the records.
pub open spec fn records_fault(
    records: Seq<RecordView>,
    qtype: u16,
    qclass: u16,
    reject_private: bool,
) -> Option<Seq<char>>
    decreases records.len(),
{
    if records.len() == 0 {
        None
    } else {
        match records_fault(records.drop_last(), qtype, qclass, reject_private) {
            Some(cause) => Some(cause),
            None => record_fault(records.last(), qtype, qclass, reject_private),
        }
    }
}

/// Whether a record belongs to the name that was asked for.
pub open spec fn owned(records: Seq<RecordView>, name: Seq<char>) -> bool {
    exists|i: int| 0 <= i < records.len() && normal((#[trigger] records[i]).name) == normal(name)
}

/// Why an answer is not believed.
pub open spec fn answer_fault(
    answer: AnswerView,
    name: Seq<char>,
    qtype: u16,
    qclass: u16,
    max_records: usize,
    reject_private: bool,
) -> Option<Seq<char>> {
    if answer.rcode > 15 {
        Some("upstream_malformed"@)
    } else if answer.records.len() > max_records {
        Some("upstream_overflow"@)
    } else {
        match records_fault(answer.records, qtype, qclass, reject_private) {
            Some(cause) => Some(cause),
            None => if answer.records.len() > 0 && !owned(answer.records, name) {
                Some("upstream_question_mismatch"@)
            } else {
                None
            },
        }
    }
}

proof fn records_fault_stays(
    records: Seq<RecordView>,
    qtype: u16,
    qclass: u16,
    reject_private: bool,
    n: int,
)
    requires
        0 <= n <= records.len(),
        records_fault(records.take(n), qtype, qclass, reject_private) is Some,
    ensures
        records_fault(records, qtype, qclass, reject_private) == records_fault(
            records.take(n),
            qtype,
            qclass,
            reject_private,
        ),
    decreases records.len(),
{
    if n == records.len() {
        assert(records.take(n) =~= records);
    } else {
        assert(records.drop_last().take(n) =~= records.take(n));
        records_fault_stays(records.drop_last(), qtype, qclass, reject_private, n);
    }
}

fn is_inner_ipv4(b: &[u8]) -> (r: bool)
    requires
        b@.len() == 4,
    ensures
        r == inner_ipv4(b@),
{
    b[0] == 10 || (b[0] == 172 && 16 <= b[1] && b[1] <= 31) || (b[0] == 192 && b[1] == 168) || b[0]
        == 127 || (b[0] == 169 && b[1] == 254) || (224 <= b[0] && b[0] <= 239) || (b[0] == 0 && b[1]
        == 0 && b[2] == 0 && b[3] == 0) || (b[0] == 255 && b[1] == 255 && b[2] == 255 && b[3]
        == 255)
}

fn is_inner_ipv6(b: &[u8]) -> (r: bool)
    requires
        b@.len() == 16,
    ensures
        r == inner_ipv6(b@),
{
    if b[0] == 0xfc || b[0] == 0xfd || (b[0] == 0xfe && 0x80 <= b[1] && b[1] <= 0xbf) || b[0]
        == 0xff {
        return true;
    }
    let mut i: usize = 0;
    while i < 15
        invariant
            i <= 15,
            b@.len() == 16,
            !(b@[0] == 0xfc || b@[0] == 0xfd || (b@[0] == 0xfe && 0x80 <= b@[1] <= 0xbf) || b@[0]
                == 0xff),
            zeros(b@, i as int),
        decreases 15 - i,
    {
        if b[i] != 0 {
            assert(!zeros(b@, 15)) by {
                assert(b@[i as int] != 0);
            }
            return false;
        }
        i = i + 1;
    }
    b[15] <= 1
}

/// Whether the data of an alias record is one valid name.
pub fn is_alias_rdata(rdata: &[u8]) -> (r: bool)
    ensures
        r == alias_rdata(rdata@),
{
    match find_name_end(rdata, 0) {
        Ok(end) => {
            if end != rdata.len() {
                return false;
            }
            let text = NameView { wire: rdata }.to_dotted();
            let chars = to_chars(text.as_str());
            let name = normalize_chars(&chars);
            valid_dns_name(&name)
        },
        Err(_) => false,
    }
}

fn check_record(record: &DnsAnswerRecord, qtype: u16, qclass: u16, reject_private: bool) -> (r:
    Result<(), &'static str>)
    ensures
        match record_fault(record@, qtype, qclass, reject_private) {
            Some(cause) => r is Err && r->Err_0@ == cause,
            None => r is Ok,
        },
{
    let chars = to_chars(record.name.as_str());
    let name = normalize_chars(&chars);
    let rtype: u16 = record.rtype;
    if !valid_dns_name(&name) || record.rclass != qclass || (qtype != 255 && rtype != qtype && rtype
        != 5) {
        return Err("upstream_question_mismatch");
    }
    if rtype == 1 && record.rdata.len() != 4 {
        return Err("upstream_malformed");
    }
    if rtype == 28 && record.rdata.len() != 16 {
        return Err("upstream_malformed");
    }
    if rtype == 5 && !is_alias_rdata(&record.rdata) {
        return Err("upstream_malformed");
    }
    if reject_private && ((rtype == 1 && is_inner_ipv4(&record.rdata)) || (rtype == 28
        && is_inner_ipv6(&record.rdata))) {
        return Err("upstream_rebinding");
    }
    Ok(())
}

/// Checks an answer of the resolver against the query.
pub fn validate_upstream_answer(
    query: &DnsQuery,
    answer: &DnsAnswer,
    max_records: usize,
    reject_private: bool,
) -> (r: Result<(), &'static str>)
    ensures
        match answer_fault(
            answer@,
            query.name@,
            query.qtype,
            query.qclass,
            max_records,
            reject_private,
        ) {
            Some(cause) => r is Err && r->Err_0@ == cause,
            None => r is Ok,
        },
{
    if answer.rcode > 15 {
        return Err("upstream_malformed");
    }
    if answer.records.len() > max_records {
        return Err("upstream_overflow");
    }
    let ghost all = record_views(answer.records@);
    let chars = to_chars(query.name.as_str());
    let name = normalize_chars(&chars);
    let mut has_owner = false;
    let mut i: usize = 0;
    while i < answer.records.len()
        invariant
            i <= answer.records.len(),
            all == record_views(answer.records@),
            answer@.rcode <= 15,
            answer@.records == all,
            all.len() <= max_records,
            name@ == normal(query.name@),
            records_fault(all.take(i as int), query.qtype, query.qclass, reject_private) is None,
            has_owner == owned(all.take(i as int), query.name@),
        decreases answer.records.len() - i,
    {
        let record = &answer.records[i];
        let ghost before = all.take(i as int);
        let ghost next = all.take(i as int + 1);
        assert(next.drop_last() =~= before);
        assert(next.last() == record@);
        match check_record(record, query.qtype, query.qclass, reject_private) {
            Ok(()) => {},
            Err(cause) => {
                proof {
                    records_fault_stays(
                        all,
                        query.qtype,
                        query.qclass,
                        reject_private,
                        i as int + 1,
                    );
                }
                return Err(cause);
            },
        }
        let record_chars = to_chars(record.name.as_str());
        let record_name = normalize_chars(&record_chars);
        let owner = same(&record_name, &name);
        proof {
            if owner {
                assert(next[i as int] == record@);
            }
            if owned(before, query.name@) {
                let k = choose|k: int|
                    0 <= k < before.len() && normal((#[trigger] before[k]).name) == normal(
                        query.name@,
                    );
                assert(next[k] == before[k]);
            }
            if owned(next, query.name@) && !owner {
                let k = choose|k: int|
                    0 <= k < next.len() && normal((#[trigger] next[k]).name) == normal(query.name@);
                assert(before[k] == next[k]);
            }
        }
        if owner {
            has_owner = true;
        }
        i = i + 1;
    }
    assert(all.take(i as int) =~= all);
    if answer.records.len() > 0 && !has_owner {
        return Err("upstream_question_mismatch");
    }
    Ok(())
}

/// The question that a response repeats.
#[derive(Clone, Debug, PartialEq, Eq)]
pub struct ResponseQuestion {
    pub name: String,
    pub qtype: u16,
    pub qclass: u16,
}

/// A response of the resolver: the question it repeats, whether it was cut off, and the answer.
#[derive(Clone, Debug, PartialEq, Eq)]
pub struct UpstreamResponse {
    pub question: Option<ResponseQuestion>,
    pub truncated: bool,
    pub answer: DnsAnswer,
}

/// Why a response is not believed.
pub open spec fn response_fault(
    response: UpstreamResponse,
    name: Seq<char>,
    qtype: u16,
    qclass: u16,
    max_records: usize,
    reject_private: bool,
) -> Option<Seq<char>> {
    match response.question {
        None => Some("upstream_question_mismatch"@),
        Some(question) => if normal(question.name@) != normal(name) || question.qtype != qtype
            || question.qclass != qclass {
            Some("upstream_question_mismatch"@)
        } else if response.truncated {
            Some("upstream_truncated"@)
        } else {
            answer_fault(response.answer@, name, qtype, qclass, max_records, reject_private)
        },
    }
}

/// Checks a response of the resolver against the query.
pub fn validate_upstream_response(
    query: &DnsQuery,
    response: &UpstreamResponse,
    max_records: usize,
    reject_private: bool,
) -> (r: Result<(), &'static str>)
    ensures
        match response_fault(
            *response,
            query.name@,
            query.qtype,
            query.qclass,
            max_records,
            reject_private,
        ) {
            Some(cause) => r is Err && r->Err_0@ == cause,
            None => r is Ok,
        },
{
    match &response.question {
        None => {
            return Err("upstream_question_mismatch");
        },
        Some(question) => {
            let asked = normalize_chars(&to_chars(query.name.as_str()));
            let repeated = normalize_chars(&to_chars(question.name.as_str()));
            if !same(&repeated, &asked) || question.qtype != query.qtype || question.qclass
                != query.qclass {
                return Err("upstream_question_mismatch");
            }
        },
    }
    if response.truncated {
        return Err("upstream_truncated");
    }
    validate_upstream_answer(query, &response.answer, max_records, reject_private)
}

/// How an exchange with the resolver failed.
#[derive(Clone, Copy, Debug, PartialEq, Eq, Structural)]
pub enum UpstreamFailure {
    Timeout,
    Wire,
    IdMismatch,
    IoTimedOut,
    Io,
    Config,
    Other,
}

pub open spec fn failure_cause(failure: UpstreamFailure) -> Seq<char> {
    match failure {
        UpstreamFailure::Timeout => "upstream_timeout"@,
        UpstreamFailure::Wire => "upstream_wire_error"@,
        UpstreamFailure::IdMismatch => "upstream_id_mismatch"@,
        UpstreamFailure::IoTimedOut => "upstream_io_timeout"@,
        UpstreamFailure::Io => "upstream_io_error"@,
        UpstreamFailure::Config => "upstream_config_error"@,
        UpstreamFailure::Other => "upstream_error"@,
    }
}

pub fn upstream_failure_cause(failure: UpstreamFailure) -> (r: &'static str)
    ensures
        r@ == failure_cause(failure),
{
    match failure {
        UpstreamFailure::Timeout => "upstream_timeout",
        UpstreamFailure::Wire => "upstream_wire_error",
        UpstreamFailure::IdMismatch => "upstream_id_mismatch",
        UpstreamFailure::IoTimedOut => "upstream_io_timeout",
        UpstreamFailure::Io => "upstream_io_error",
        UpstreamFailure::Config => "upstream_config_error",
        UpstreamFailure::Other => "upstream_error",
    }
}

// ---- laws ----------------------------------------------------------------------------

/// A response that is believed repeats the question, was not cut off, and every address in it
/// that public names should not have was looked for where that is asked.
pub proof fn believed_responses_answer_the_question(
    response: UpstreamResponse,
    name: Seq<char>,
    qtype: u16,
    qclass: u16,
    max_records: usize,
    reject_private: bool,
)
    requires
        response_fault(response, name, qtype, qclass, max_records, reject_private) is None,
    ensures
        response.question is Some,
        normal(response.question->0.name@) == normal(name),
        !response.truncated,
        response.answer@.records.len() <= max_records,
        forall|i: int|
            0 <= i < response.answer@.records.len() ==> record_fault(
                #[trigger] response.answer@.records[i],
                qtype,
                qclass,
                reject_private,
            ) is None,
        response.answer@.records.len() > 0 ==> owned(response.answer@.records, name),
{
    no_record_is_at_fault(response.answer@.records, qtype, qclass, reject_private);
}

proof fn no_record_is_at_fault(
    records: Seq<RecordView>,
    qtype: u16,
    qclass: u16,
    reject_private: bool,
)
    requires
        records_fault(records, qtype, qclass, reject_private) is None,
    ensures
        forall|i: int|
            0 <= i < records.len() ==> record_fault(
                #[trigger] records[i],
                qtype,
                qclass,
                reject_private,
            ) is None,
    decreases records.len(),
{
    if records.len() > 0 {
        let front = records.drop_last();
        no_record_is_at_fault(front, qtype, qclass, reject_private);
        assert forall|i: int| 0 <= i < records.len() implies record_fault(
            #[trigger] records[i],
            qtype,
            qclass,
            reject_private,
        ) is None by {
            if i < front.len() {
                assert(front[i] == records[i]);
            }
        }
    }
}

/// Addresses that no public name should have, as numbers: 10.0.0.0/8, 172.16.0.0/12, 192.168.0.0/16,
/// the loopback, link-local and multicast networks, and the first and the last address.
pub proof fn inner_ipv4_addresses_are_these(b: Seq<u8>)
    requires
        b.len() == 4,
    ensures
        ({
            let n = b[0] * 0x1000000 + b[1] * 0x10000 + b[2] * 0x100 + b[3];
            inner_ipv4(b) <==> {
                ||| 0x0a00_0000 <= n <= 0x0aff_ffff
                ||| 0xac10_0000 <= n <= 0xac1f_ffff
                ||| 0xc0a8_0000 <= n <= 0xc0a8_ffff
                ||| 0x7f00_0000 <= n <= 0x7fff_ffff
                ||| 0xa9fe_0000 <= n <= 0xa9fe_ffff
                ||| 0xe000_0000 <= n <= 0xefff_ffff
                ||| n == 0
                ||| n == 0xffff_ffff
            }
        }),
{
}

/// Addresses that no public name should have, by their leading bytes: fc00::/7, fe80::/10, ff00::/8,
/// the unspecified address and the loopback.
pub proof fn inner_ipv6_addresses_are_these(b: Seq<u8>)
    requires
        b.len() == 16,
    ensures
        inner_ipv6(b) <==> {
            ||| b[0] / 2 == 126
            ||| b[0] == 0xfe && b[1] / 64 == 2
            ||| b[0] == 0xff
            ||| b[15] <= 1 && forall|i: int| 0 <= i < 15 ==> #[trigger] b[i] == 0
        },
{
}

/// A record that is believed: under a valid name, of the class that was asked for and of the type
/// that was asked for or an alias, with data of its length, and where that is asked with no address
/// that public names should not have.
pub open spec fn believable(record: RecordView, qtype: u16, qclass: u16, reject_private: bool) -> bool {
    &&& dns_name(normal(record.name))
    &&& record.rclass == qclass
    &&& record.rtype == qtype || record.rtype == 5 || qtype == 255
    &&& record.rtype == 1 ==> record.rdata.len() == 4
    &&& record.rtype == 28 ==> record.rdata.len() == 16
    &&& record.rtype == 5 ==> alias_rdata(record.rdata)
    &&& reject_private && record.rtype == 1 ==> !inner_ipv4(record.rdata)
    &&& reject_private && record.rtype == 28 ==> !inner_ipv6(record.rdata)
}

proof fn records_are_believed_together(
    records: Seq<RecordView>,
    qtype: u16,
    qclass: u16,
    reject_private: bool,
)
    ensures
        records_fault(records, qtype, qclass, reject_private) is None <==> forall|i: int|
            0 <= i < records.len() ==> believable(
                #[trigger] records[i],
                qtype,
                qclass,
                reject_private,
            ),
    decreases records.len(),
{
    if records.len() > 0 {
        let front = records.drop_last();
        records_are_believed_together(front, qtype, qclass, reject_private);
        assert(record_fault(records.last(), qtype, qclass, reject_private) is None <==> believable(
            records.last(),
            qtype,
            qclass,
            reject_private,
        ));
        if records_fault(records, qtype, qclass, reject_private) is None {
            assert forall|i: int| 0 <= i < records.len() implies believable(
                #[trigger] records[i],
                qtype,
                qclass,
                reject_private,
            ) by {
                if i < front.len() {
                    assert(front[i] == records[i]);
                }
            }
        }
        if forall|i: int|
            0 <= i < records.len() ==> believable(
                #[trigger] records[i],
                qtype,
                qclass,
                reject_private,
            ) {
            assert forall|i: int| 0 <= i < front.len() implies believable(
                #[trigger] front[i],
                qtype,
                qclass,
                reject_private,
            ) by {
                assert(front[i] == records[i]);
            }
            assert(records[records.len() - 1] == records.last());
        }
    }
}

/// A response is believed exactly where it repeats the question, whatever its spelling, was not cut
/// off, has a response code of four bits and no more records than the limit, every record is
/// believed, and one of them, where there is any, belongs to the name that was asked for.
pub proof fn responses_are_believed_for_these_reasons(
    response: UpstreamResponse,
    name: Seq<char>,
    qtype: u16,
    qclass: u16,
    max_records: usize,
    reject_private: bool,
)
    ensures
        ({
            let records = response.answer@.records;
            response_fault(response, name, qtype, qclass, max_records, reject_private) is None <==> {
                &&& response.question matches Some(asked) && normal(asked.name@) == normal(name)
                    && asked.qtype == qtype && asked.qclass == qclass
                &&& !response.truncated
                &&& response.answer.rcode <= 15
                &&& records.len() <= max_records
                &&& forall|i: int|
                    0 <= i < records.len() ==> believable(
                        #[trigger] records[i],
                        qtype,
                        qclass,
                        reject_private,
                    )
                &&& records.len() == 0 || exists|i: int|
                    0 <= i < records.len() && normal((#[trigger] records[i]).name) == normal(name)
            }
        }),
{
    records_are_believed_together(response.answer@.records, qtype, qclass, reject_private);
}

/// Settings of the resolver are accepted exactly where its address is a literal that is neither
/// unspecified nor multicast nor the broadcast address, its port is not zero, a query may take up to
/// a minute and 1 to 8 attempts with 1 to 4096 under way, the breaker has its limits, the listener
/// can be read and is another endpoint, and an encrypted transport has a name to check.
pub proof fn accepted_resolvers_can_be_asked(upstream: UpstreamConfig, listen: Seq<char>)
    ensures
        upstream_fault(upstream, listen) is None <==> {
            let ip = address(upstream.resolver_ip@);
            let from = socket(listen);
            &&& ip is Some
            &&& upstream.port != 0
            &&& 1 <= upstream.query_timeout_ms <= 60_000
            &&& 1 <= upstream.max_attempts <= 8
            &&& 1 <= upstream.max_outstanding <= 4096
            &&& upstream.breaker_failures >= 1 && upstream.breaker_cooldown_secs >= 1
            &&& upstream.transport == UpstreamTransport::Tls || upstream.transport
                == UpstreamTransport::Doh || upstream.transport == UpstreamTransport::Doq
                ==> upstream.tls_server_name is Some && tls_name(upstream.tls_server_name->0@)
            &&& match ip->0 {
                IpAddr::V4(n) => n != 0 && !(0xe000_0000 <= n <= 0xefff_ffff) && n != 0xffff_ffff,
                IpAddr::V6(n) => n != 0 && n < 0xff00_0000_0000_0000_0000_0000_0000_0000,
            }
            &&& from is Some
            &&& !(from->0.port == upstream.port && (from->0.ip == ip->0 && from->0.scope == 0
                || from->0.ip == IpAddr::V4(0) && ip->0 is V4 || from->0.ip == IpAddr::V6(0) && ip->0
                is V6))
        },
{
}

/// A name to check a certificate against has 1 to 253 ASCII characters and is an address or made of
/// host labels.
pub proof fn tls_names_are_hosts(name: Seq<char>)
    ensures
        tls_name(name) <==> {
            &&& 1 <= name.len() && byte_len(name) <= 253
            &&& is_ascii_chars(name)
            &&& address(name) is Some || forall|i: int|
                0 <= i < crate::text::split(name, '.').len() ==> crate::names::host_label(
                    #[trigger] crate::text::split(name, '.')[i],
                )
        },
{
}

} // verus!
