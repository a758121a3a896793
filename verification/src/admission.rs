//! The limits that every request and every answer passes.
use vstd::prelude::*;
use vstd::string::*;

use crate::config::{AdmissionConfig, AdmissionView, PrivacyConfig};
use crate::dns::{record_views, AnswerView, DnsAnswer, DnsAnswerRecord, DnsQuery, RecordView};
use crate::names::{check_listed_label, listed_label, wire_bytes, wire_name_bytes, MAX_DOMAIN_BYTES};
use crate::net::{in_network, network, IpAddr, IpNetwork};
use crate::policy::{ErrorView, PolicyError, MAX_CLIENT_CIDRS};
use crate::text::{byte_len, decimal, split, split_at_char, str_len, texts, to_chars, trim_end_char,
    trim_end_of, utf8_len, views, with_number, ending_in_number};

verus! {

pub const MAX_GLOBAL_QUERIES_PER_SECOND: usize = 1_000_000;

pub open spec fn admission_error(reason: Seq<char>) -> ErrorView {
    ErrorView::InvalidAdmission { reason }
}

fn refuse(reason: &str) -> (r: Result<(), PolicyError>)
    ensures
        r is Err,
        r->Err_0@ == admission_error(reason@),
{
    Err(PolicyError::InvalidAdmission { reason: reason.to_owned() })
}

// ---- checking the limits -------------------------------------------------------------

/// Whether the text is a network that may stand on the denylist.
pub open spec fn deny_entry(text: Seq<char>) -> bool {
    byte_len(text) <= MAX_DOMAIN_BYTES && network(text) is Some
}

/// A denylist: bounded, and made of networks.
pub open spec fn deny_list(list: Seq<Seq<char>>) -> bool {
    &&& list.len() <= MAX_CLIENT_CIDRS
    &&& forall|i: int| 0 <= i < list.len() ==> deny_entry(#[trigger] list[i])
}

pub open spec fn deny_list_message() -> Seq<char> {
    "deny_client_cidrs must contain at most "@ + decimal(MAX_CLIENT_CIDRS as nat)
        + " valid IPv4/IPv6 CIDRs"@
}

/// What is wrong with limits at startup: the first fault counts.
pub open spec fn startup_fault(limits: AdmissionView) -> Option<Seq<char>> {
    if limits.max_name_bytes == 0 || limits.max_name_bytes > MAX_DOMAIN_BYTES {
        Some("max_name_bytes must be between 1 and 253"@)
    } else if !deny_list(limits.deny_client_cidrs) {
        Some(deny_list_message())
    } else if limits.max_response_records == 0 {
        Some("max_response_records must be non-zero"@)
    } else if limits.max_response_bytes < 12 {
        Some("max_response_bytes must be at least 12"@)
    } else if limits.max_response_amplification == 0 {
        Some("max_response_amplification must be non-zero"@)
    } else if limits.max_inflight_requests == 0 {
        Some("max_inflight_requests must be non-zero"@)
    } else if limits.max_queries_per_second == 0 || limits.max_queries_per_second
        > MAX_GLOBAL_QUERIES_PER_SECOND {
        Some(
            "max_queries_per_second must be between 1 and "@ + decimal(
                MAX_GLOBAL_QUERIES_PER_SECOND as nat,
            ),
        )
    } else if limits.max_inflight_per_client == 0 {
        Some("max_inflight_per_client must be non-zero"@)
    } else if limits.max_queries_per_client_per_second == 0 {
        Some("max_queries_per_client_per_second must be non-zero"@)
    } else if limits.max_response_bytes_per_client_per_second == 0 {
        Some("max_response_bytes_per_client_per_second must be non-zero"@)
    } else if limits.max_response_bytes_per_network_per_second == 0 {
        Some("max_response_bytes_per_network_per_second must be non-zero"@)
    } else if limits.max_response_bytes_per_second == 0 {
        Some("max_response_bytes_per_second must be non-zero"@)
    } else if limits.max_network_abuse_violations == 0 || limits.network_abuse_window_secs == 0
        || limits.network_abuse_cooldown_secs == 0 || limits.network_abuse_ipv4_prefix > 32
        || limits.network_abuse_ipv6_prefix > 128 {
        Some("network abuse limits or prefixes are invalid"@)
    } else if limits.max_client_abuse_violations == 0 || limits.client_abuse_window_secs == 0
        || limits.client_abuse_cooldown_secs == 0 || limits.ddos.global_abuse_window_secs == 0
        || limits.ddos.global_abuse_cooldown_secs == 0 {
        Some("client abuse limits must be non-zero"@)
    } else {
        None
    }
}

/// What is wrong with limits that are to replace others while running: the number of requests
/// in flight stays what it was at startup.
pub open spec fn replacement_fault(limits: AdmissionView, inflight: usize) -> Option<Seq<char>> {
    if limits.max_inflight_requests != inflight {
        Some("max_inflight_requests is startup-only"@)
    } else if limits.max_name_bytes == 0 || limits.max_name_bytes > MAX_DOMAIN_BYTES {
        Some("max_name_bytes must be between 1 and 253"@)
    } else if !deny_list(limits.deny_client_cidrs) {
        Some(deny_list_message())
    } else if !(startup_fault(AdmissionView { max_inflight_requests: 1, ..limits }) is None) {
        Some("admission limits are invalid or zero"@)
    } else {
        None
    }
}

fn is_deny_list(list: &[String]) -> (r: bool)
    ensures
        r == deny_list(texts(list@)),
{
    let ghost all = texts(list@);
    if list.len() > MAX_CLIENT_CIDRS {
        return false;
    }
    let mut i: usize = 0;
    while i < list.len()
        invariant
            i <= list.len(),
            all == texts(list@),
            forall|k: int| 0 <= k < i ==> deny_entry(#[trigger] all[k]),
        decreases list.len() - i,
    {
        assert(all[i as int] == list[i as int]@);
        if str_len(list[i].as_str()) > MAX_DOMAIN_BYTES || IpNetwork::parse(
            list[i].as_str(),
        ).is_none() {
            assert(!deny_entry(all[i as int]));
            return false;
        }
        i = i + 1;
    }
    true
}

fn refuse_deny_list() -> (r: Result<(), PolicyError>)
    ensures
        r is Err,
        r->Err_0@ == admission_error(deny_list_message()),
{
    Err(
        PolicyError::InvalidAdmission {
            reason: with_number(
                "deny_client_cidrs must contain at most ",
                MAX_CLIENT_CIDRS as u64,
                " valid IPv4/IPv6 CIDRs",
            ),
        },
    )
}

/// Checks the limits at startup.
pub fn check_startup_admission(limits: &AdmissionConfig) -> (r: Result<(), PolicyError>)
    ensures
        match startup_fault(limits@) {
            Some(reason) => r is Err && r->Err_0@ == admission_error(reason),
            None => r is Ok,
        },
{
    if limits.max_name_bytes == 0 || limits.max_name_bytes > MAX_DOMAIN_BYTES {
        return refuse("max_name_bytes must be between 1 and 253");
    }
    if !is_deny_list(&limits.deny_client_cidrs) {
        return refuse_deny_list();
    }
    if limits.max_response_records == 0 {
        return refuse("max_response_records must be non-zero");
    }
    if limits.max_response_bytes < 12 {
        return refuse("max_response_bytes must be at least 12");
    }
    if limits.max_response_amplification == 0 {
        return refuse("max_response_amplification must be non-zero");
    }
    if limits.max_inflight_requests == 0 {
        return refuse("max_inflight_requests must be non-zero");
    }
    if limits.max_queries_per_second == 0 || limits.max_queries_per_second
        > MAX_GLOBAL_QUERIES_PER_SECOND {
        return Err(
            PolicyError::InvalidAdmission {
                reason: ending_in_number(
                    "max_queries_per_second must be between 1 and ",
                    MAX_GLOBAL_QUERIES_PER_SECOND as u64,
                ),
            },
        );
    }
    if limits.max_inflight_per_client == 0 {
        return refuse("max_inflight_per_client must be non-zero");
    }
    if limits.max_queries_per_client_per_second == 0 {
        return refuse("max_queries_per_client_per_second must be non-zero");
    }
    if limits.max_response_bytes_per_client_per_second == 0 {
        return refuse("max_response_bytes_per_client_per_second must be non-zero");
    }
    if limits.max_response_bytes_per_network_per_second == 0 {
        return refuse("max_response_bytes_per_network_per_second must be non-zero");
    }
    if limits.max_response_bytes_per_second == 0 {
        return refuse("max_response_bytes_per_second must be non-zero");
    }
    if limits.max_network_abuse_violations == 0 || limits.network_abuse_window_secs == 0
        || limits.network_abuse_cooldown_secs == 0 || limits.network_abuse_ipv4_prefix > 32
        || limits.network_abuse_ipv6_prefix > 128 {
        return refuse("network abuse limits or prefixes are invalid");
    }
    if limits.max_client_abuse_violations == 0 || limits.client_abuse_window_secs == 0
        || limits.client_abuse_cooldown_secs == 0 || limits.ddos.global_abuse_window_secs == 0
        || limits.ddos.global_abuse_cooldown_secs == 0 {
        return refuse("client abuse limits must be non-zero");
    }
    Ok(())
}

/// Checks limits that are to replace others. `inflight` is the number of requests in flight that
/// was set at startup.
pub fn validate_admission(limits: &AdmissionConfig, inflight: usize) -> (r: Result<(), PolicyError>)
    ensures
        match replacement_fault(limits@, inflight) {
            Some(reason) => r is Err && r->Err_0@ == admission_error(reason),
            None => r is Ok,
        },
{
    if limits.max_inflight_requests != inflight {
        return refuse("max_inflight_requests is startup-only");
    }
    if limits.max_name_bytes == 0 || limits.max_name_bytes > MAX_DOMAIN_BYTES {
        return refuse("max_name_bytes must be between 1 and 253");
    }
    if !is_deny_list(&limits.deny_client_cidrs) {
        return refuse_deny_list();
    }
    if limits.max_response_records == 0 || limits.max_response_bytes < 12
        || limits.max_response_amplification == 0 || limits.max_queries_per_second == 0
        || limits.max_queries_per_second > MAX_GLOBAL_QUERIES_PER_SECOND
        || limits.max_inflight_per_client == 0 || limits.max_queries_per_client_per_second == 0
        || limits.max_response_bytes_per_client_per_second == 0
        || limits.max_response_bytes_per_network_per_second == 0
        || limits.max_response_bytes_per_second == 0 || limits.max_network_abuse_violations == 0
        || limits.network_abuse_window_secs == 0 || limits.network_abuse_cooldown_secs == 0
        || limits.network_abuse_ipv4_prefix > 32 || limits.network_abuse_ipv6_prefix > 128
        || limits.max_client_abuse_violations == 0 || limits.client_abuse_window_secs == 0
        || limits.client_abuse_cooldown_secs == 0 || limits.ddos.global_abuse_window_secs == 0
        || limits.ddos.global_abuse_cooldown_secs == 0 {
        return refuse("admission limits are invalid or zero");
    }
    Ok(())
}

/// What is wrong with the settings on logs and recordings.
pub open spec fn privacy_fault(privacy: PrivacyConfig, persist_incidents: bool) -> Option<Seq<char>> {
    let path = privacy.query_recording_path;
    if privacy.query_log_enabled && (privacy.query_log_max_entries == 0
        || privacy.query_log_max_entries > 65_536 || privacy.query_log_retention_secs == 0) {
        Some("enabled query log bounds are invalid"@)
    } else if path is Some && (path->0@.len() == 0 || byte_len(path->0@) > 4096) {
        Some("query recording path must be between 1 and 4096 bytes"@)
    } else if path is Some && (privacy.query_recording_max_bytes == 0
        || privacy.query_recording_max_bytes > 1_073_741_824) {
        Some("query recording max bytes must be between 1 and 1073741824"@)
    } else if path is Some && (privacy.query_recording_max_files == 0
        || privacy.query_recording_max_files > 16) {
        Some("query recording max files must be between 1 and 16"@)
    } else if persist_incidents && path is None {
        Some("ddos incident persistence requires privacy.query_recording_path"@)
    } else {
        None
    }
}

/// Checks the settings on logs and recordings.
pub fn check_privacy(privacy: &PrivacyConfig, persist_incidents: bool) -> (r: Result<
    (),
    PolicyError,
>)
    ensures
        match privacy_fault(*privacy, persist_incidents) {
            Some(reason) => r is Err && r->Err_0@ == admission_error(reason),
            None => r is Ok,
        },
{
    if privacy.query_log_enabled && (privacy.query_log_max_entries == 0
        || privacy.query_log_max_entries > 65_536 || privacy.query_log_retention_secs == 0) {
        return refuse("enabled query log bounds are invalid");
    }
    match &privacy.query_recording_path {
        Some(path) => {
            let chars = to_chars(path.as_str());
            if chars.len() == 0 || str_len(path.as_str()) > 4096 {
                return refuse("query recording path must be between 1 and 4096 bytes");
            }
            if privacy.query_recording_max_bytes == 0 || privacy.query_recording_max_bytes
                > 1_073_741_824 {
                return refuse("query recording max bytes must be between 1 and 1073741824");
            }
            if privacy.query_recording_max_files == 0 || privacy.query_recording_max_files > 16 {
                return refuse("query recording max files must be between 1 and 16");
            }
        },
        None => {
            if persist_incidents {
                return refuse("ddos incident persistence requires privacy.query_recording_path");
            }
        },
    }
    Ok(())
}

// ---- requests ------------------------------------------------------------------------

/// Whether the client is on the denylist.
pub open spec fn on_deny_list(list: Seq<Seq<char>>, client: Option<IpAddr>) -> bool {
    client is Some && exists|i: int|
        0 <= i < list.len() && network(#[trigger] list[i]) is Some && in_network(
            network(list[i])->0,
            client->0,
        )
}

pub fn deny_client(list: &[String], client: Option<IpAddr>) -> (r: bool)
    ensures
        r == on_deny_list(texts(list@), client),
{
    let address = match client {
        Some(address) => address,
        None => {
            return false;
        },
    };
    let ghost all = texts(list@);
    let mut i: usize = 0;
    while i < list.len()
        invariant
            i <= list.len(),
            all == texts(list@),
            client == Some(address),
            forall|k: int|
                0 <= k < i ==> !(network(#[trigger] all[k]) is Some && in_network(
                    network(all[k])->0,
                    address,
                )),
        decreases list.len() - i,
    {
        assert(all[i as int] == list[i as int]@);
        match IpNetwork::parse(list[i].as_str()) {
            Some(found) => {
                if found.contains(address) {
                    assert(network(all[i as int]) is Some);
                    return true;
                }
            },
            None => {},
        }
        i = i + 1;
    }
    false
}

/// Whether a query is well-formed and within the limits: a bounded name of non-empty ASCII labels,
/// and a type and a class that may be asked for.
pub open spec fn admitted(limits: AdmissionView, name: Seq<char>, qtype: u16, qclass: u16) -> bool {
    let bare = trim_end_of(name, '.');
    &&& byte_len(bare) <= limits.max_name_bytes
    &&& qtype != 0
    &&& qclass != 0
    &&& !(limits.reject_any && qtype == 255)
    &&& bare.len() > 0 ==> forall|i: int|
        0 <= i < split(bare, '.').len() ==> listed_label(#[trigger] split(bare, '.')[i])
}

pub fn admission_allows(limits: &AdmissionConfig, query: &DnsQuery) -> (r: bool)
    ensures
        r == admitted(limits@, query.name@, query.qtype, query.qclass),
{
    let chars = to_chars(query.name.as_str());
    let bare = trim_end_char(&chars, '.');
    if utf8_len(&bare) > limits.max_name_bytes || query.qtype == 0 || query.qclass == 0 {
        return false;
    }
    if limits.reject_any && query.qtype == 255 {
        return false;
    }
    if bare.len() == 0 {
        return true;
    }
    let labels = split_at_char(&bare, '.');
    let ghost all = split(bare@, '.');
    let mut i: usize = 0;
    while i < labels.len()
        invariant
            i <= labels.len(),
            bare@ == trim_end_of(query.name@, '.'),
            bare@.len() > 0,
            all == views(labels@),
            all == split(bare@, '.'),
            forall|k: int| 0 <= k < i ==> listed_label(#[trigger] all[k]),
        decreases labels.len() - i,
    {
        assert(all[i as int] == labels[i as int]@);
        if !check_listed_label(&labels[i]) {
            assert(!listed_label(split(trim_end_of(query.name@, '.'), '.')[i as int]));
            return false;
        }
        i = i + 1;
    }
    true
}

// ---- answers -------------------------------------------------------------------------

pub open spec fn within_word(n: int) -> int {
    if n > usize::MAX {
        usize::MAX as int
    } else {
        n
    }
}

fn bounded_product(a: usize, b: usize) -> (r: usize)
    ensures
        r == within_word(a * b),
{
    match a.checked_mul(b) {
        Some(product) => product,
        None => usize::MAX,
    }
}

/// The bytes of a message with the question alone.
pub open spec fn question_bytes(name: Seq<char>) -> int {
    within_word(16 + wire_bytes(name) as int)
}

/// The bytes of a record.
pub open spec fn record_bytes(record: RecordView) -> int {
    within_word(wire_bytes(record.name) as int + 10 + record.rdata.len())
}

/// The bytes that an answer may take: a fixed limit, and a multiple of the question.
pub open spec fn answer_limit(limits: AdmissionView, name: Seq<char>) -> int {
    let product = within_word(question_bytes(name) * limits.max_response_amplification);
    if limits.max_response_bytes < product {
        limits.max_response_bytes as int
    } else {
        product
    }
}

/// The records that fit, one after the other, and the bytes with them.
pub open spec fn fitting(records: Seq<RecordView>, start: int, limit: int) -> (Seq<RecordView>, int)
    decreases records.len(),
{
    if records.len() == 0 {
        (Seq::empty(), start)
    } else {
        let (out, bytes) = fitting(records.drop_last(), start, limit);
        let size = record_bytes(records.last());
        if within_word(bytes + size) <= limit {
            (out.push(records.last()), within_word(bytes + size))
        } else {
            (out, bytes)
        }
    }
}

pub open spec fn capped_ttl(record: RecordView, max_ttl_secs: u64) -> RecordView {
    RecordView {
        ttl: if max_ttl_secs < record.ttl {
            max_ttl_secs as u32
        } else {
            record.ttl
        },
        ..record
    }
}

pub open spec fn first_records(records: Seq<RecordView>, count: int) -> Seq<RecordView> {
    if records.len() > count {
        records.take(count)
    } else {
        records
    }
}

/// The answer within the limits: no time to live beyond that of the cache, a bounded number of
/// records, and only records that fit.
pub open spec fn capped(
    limits: AdmissionView,
    max_ttl_secs: u64,
    name: Seq<char>,
    answer: AnswerView,
) -> AnswerView {
    let short = Seq::new(
        answer.records.len(),
        |i: int| capped_ttl(answer.records[i], max_ttl_secs),
    );
    let some = first_records(short, limits.max_response_records as int);
    AnswerView {
        records: fitting(some, question_bytes(name), answer_limit(limits, name)).0,
        ..answer
    }
}

pub fn cap_answer(
    limits: &AdmissionConfig,
    max_ttl_secs: u64,
    query_name: &str,
    answer: &DnsAnswer,
) -> (r: DnsAnswer)
    ensures
        r@ == capped(limits@, max_ttl_secs, query_name@, answer@),
{
    let ghost short = Seq::new(
        answer@.records.len(),
        |i: int| capped_ttl(answer@.records[i], max_ttl_secs),
    );
    let ghost some = first_records(short, limits.max_response_records as int);
    let ghost start = question_bytes(query_name@);
    let mut bytes: usize = wire_name_bytes(query_name).saturating_add(12).saturating_add(4);
    let question: usize = bytes;
    assert(question == start);
    let product: usize = bounded_product(question, limits.max_response_amplification);
    let limit: usize = if limits.max_response_bytes < product {
        limits.max_response_bytes
    } else {
        product
    };
    assert(limit == answer_limit(limits@, query_name@));
    let count: usize = if answer.records.len() > limits.max_response_records {
        limits.max_response_records
    } else {
        answer.records.len()
    };
    let mut records: Vec<DnsAnswerRecord> = Vec::new();
    let mut i: usize = 0;
    assert(record_views(records@) =~= Seq::<RecordView>::empty());
    assert(some.len() == count);
    while i < count
        invariant
            i <= count <= answer.records@.len(),
            some.len() == count,
            short == Seq::new(
                answer@.records.len(),
                |i: int| capped_ttl(answer@.records[i], max_ttl_secs),
            ),
            some == first_records(short, limits.max_response_records as int),
            fitting(some.take(i as int), start, limit as int) == (record_views(records@), bytes as int),
        decreases count - i,
    {
        let ghost next = some.take(i as int + 1);
        assert(next.drop_last() =~= some.take(i as int));
        let mut record = answer.records[i].copied();
        if max_ttl_secs < record.ttl as u64 {
            record.ttl = max_ttl_secs as u32;
        }
        assert(answer@.records[i as int] == answer.records@[i as int]@);
        assert(next.last() == record@);
        let size: usize = wire_name_bytes(record.name.as_str()).saturating_add(10).saturating_add(
            record.rdata.len(),
        );
        assert(size == record_bytes(record@));
        let sum: usize = bytes.saturating_add(size);
        if sum <= limit {
            let ghost before = record_views(records@);
            bytes = sum;
            records.push(record);
            assert(record_views(records@) =~= before.push(record@));
        }
        i = i + 1;
    }
    assert(some.take(i as int) =~= some);
    DnsAnswer {
        rcode: answer.rcode,
        authoritative: answer.authoritative,
        recursion_available: answer.recursion_available,
        records,
    }
}

/// Whether an encoded answer reaches the multiple of the query that is allowed.
pub open spec fn amplified(query_bytes: usize, response_bytes: usize, ratio: usize) -> bool {
    query_bytes != 0 && response_bytes >= within_word(query_bytes * ratio)
}

pub fn response_amplification_capped(query_bytes: usize, response_bytes: usize, ratio: usize) -> (r:
    bool)
    ensures
        r == amplified(query_bytes, response_bytes, ratio),
{
    query_bytes != 0 && response_bytes >= bounded_product(query_bytes, ratio)
}

// ---- laws ----------------------------------------------------------------------------

/// The bytes of a list of records.
pub open spec fn total_bytes(records: Seq<RecordView>) -> int
    decreases records.len(),
{
    if records.len() == 0 {
        0
    } else {
        total_bytes(records.drop_last()) + record_bytes(records.last())
    }
}

proof fn fitting_fits(records: Seq<RecordView>, start: int, limit: int)
    requires
        0 <= start <= usize::MAX,
        limit < usize::MAX,
    ensures
        ({
            let (out, bytes) = fitting(records, start, limit);
            &&& bytes == start + total_bytes(out)
            &&& out.len() > 0 ==> bytes <= limit
            &&& out.len() <= records.len()
            &&& forall|i: int| 0 <= i < out.len() ==> records.contains(#[trigger] out[i])
        }),
    decreases records.len(),
{
    if records.len() > 0 {
        let front = records.drop_last();
        fitting_fits(front, start, limit);
        let (before, sum) = fitting(front, start, limit);
        let (out, bytes) = fitting(records, start, limit);
        if out.len() > before.len() {
            assert(out.drop_last() =~= before);
            assert(out.last() == records.last());
        }
        assert forall|i: int| 0 <= i < out.len() implies records.contains(#[trigger] out[i]) by {
            if i < before.len() {
                assert(out[i] == before[i]);
                let k = choose|k: int| 0 <= k < front.len() && front[k] == before[i];
                assert(records[k] == out[i]);
            } else {
                assert(records[records.len() - 1] == out[i]);
            }
        }
    }
}

/// An answer that carries records after it was capped is within every limit: the bytes, the
/// multiple of the question, the number of records and the time to live.
pub proof fn capped_answers_are_within_the_limits(
    limits: AdmissionView,
    max_ttl_secs: u64,
    name: Seq<char>,
    answer: AnswerView,
)
    requires
        limits.max_response_bytes < usize::MAX,
    ensures
        ({
            let out = capped(limits, max_ttl_secs, name, answer);
            let size = question_bytes(name) + total_bytes(out.records);
            &&& out.rcode == answer.rcode
            &&& out.records.len() <= limits.max_response_records
            &&& out.records.len() <= answer.records.len()
            &&& out.records.len() > 0 ==> size <= limits.max_response_bytes
            &&& out.records.len() > 0 ==> size <= question_bytes(name)
                * limits.max_response_amplification
            &&& forall|i: int|
                0 <= i < out.records.len() ==> (#[trigger] out.records[i]).ttl <= max_ttl_secs
        }),
{
    let short = Seq::new(
        answer.records.len(),
        |i: int| capped_ttl(answer.records[i], max_ttl_secs),
    );
    let some = first_records(short, limits.max_response_records as int);
    let out = capped(limits, max_ttl_secs, name, answer);
    fitting_fits(some, question_bytes(name), answer_limit(limits, name));
    assert forall|i: int| 0 <= i < out.records.len() implies (#[trigger] out.records[i]).ttl
        <= max_ttl_secs by {
        assert(some.contains(out.records[i]));
        let k = choose|k: int| 0 <= k < some.len() && some[k] == out.records[i];
        assert(short[k] == out.records[i]);
    }
}

/// Limits that may replace others are limits that a start would accept.
pub proof fn replacements_are_valid_at_startup(limits: AdmissionView, inflight: usize)
    requires
        replacement_fault(limits, inflight) is None,
        inflight > 0,
    ensures
        startup_fault(limits) is None,
{
}

// ---- what capping keeps --------------------------------------------------------------

/// The bytes of an answer to a question: twelve for the header, the name with four more for the
/// question, and the name, ten more and the data for each record.
pub open spec fn answer_bytes(name: Seq<char>, records: Seq<RecordView>) -> int
    decreases records.len(),
{
    if records.len() == 0 {
        12 + wire_bytes(name) as int + 4
    } else {
        answer_bytes(name, records.drop_last()) + wire_bytes(records.last().name) + 10
            + records.last().rdata.len()
    }
}

/// A record whose time to live is cut at the limit.
pub open spec fn shortened(record: RecordView, max_ttl_secs: u64) -> RecordView {
    RecordView {
        name: record.name,
        rtype: record.rtype,
        rclass: record.rclass,
        ttl: (if record.ttl <= max_ttl_secs {
            record.ttl as int
        } else {
            max_ttl_secs as int
        }) as u32,
        rdata: record.rdata,
    }
}

proof fn answers_take_bytes(name: Seq<char>, records: Seq<RecordView>)
    ensures
        answer_bytes(name, records) >= 16 + wire_bytes(name),
    decreases records.len(),
{
    if records.len() > 0 {
        answers_take_bytes(name, records.drop_last());
    }
}

proof fn capped_prefix(
    limits: AdmissionView,
    max_ttl_secs: u64,
    name: Seq<char>,
    answer: AnswerView,
)
    requires
        limits.max_response_bytes < usize::MAX,
        16 + wire_bytes(name) <= usize::MAX,
    ensures
        ({
            let short = Seq::new(
                answer.records.len(),
                |i: int| capped_ttl(answer.records[i], max_ttl_secs),
            );
            let some = first_records(short, limits.max_response_records as int);
            let (out, bytes) = fitting(some, question_bytes(name), answer_limit(limits, name));
            &&& bytes == answer_bytes(name, out)
            &&& out == capped(limits, max_ttl_secs, name, answer).records
        }),
{
    let short = Seq::new(
        answer.records.len(),
        |i: int| capped_ttl(answer.records[i], max_ttl_secs),
    );
    let some = first_records(short, limits.max_response_records as int);
    fitting_counts(some, name, answer_limit(limits, name));
}

proof fn fitting_counts(records: Seq<RecordView>, name: Seq<char>, limit: int)
    requires
        limit < usize::MAX,
        16 + wire_bytes(name) <= usize::MAX,
    ensures
        ({
            let (out, bytes) = fitting(records, question_bytes(name), limit);
            bytes == answer_bytes(name, out) && 0 <= bytes <= usize::MAX
        }),
    decreases records.len(),
{
    if records.len() > 0 {
        let front = records.drop_last();
        fitting_counts(front, name, limit);
        let (before, sum) = fitting(front, question_bytes(name), limit);
        let (out, bytes) = fitting(records, question_bytes(name), limit);
        if within_word(sum + record_bytes(records.last())) <= limit {
            assert(out.drop_last() =~= before);
            assert(out.last() == records.last());
        }
    }
}

/// One record more: while there is room for another record, it is kept behind the others exactly
/// where the answer stays within the bytes and within the multiple of the question, with its time to
/// live cut at the limit; beyond the number of records it is left out. What else the answer says
/// stays, and an answer without records stays as it is.
pub proof fn records_are_kept_where_they_fit(
    limits: AdmissionView,
    max_ttl_secs: u64,
    name: Seq<char>,
    answer: AnswerView,
    record: RecordView,
)
    requires
        limits.max_response_bytes < usize::MAX,
        16 + wire_bytes(name) <= usize::MAX,
    ensures
        ({
            let more = AnswerView { records: answer.records.push(record), ..answer };
            let kept = capped(limits, max_ttl_secs, name, answer);
            let after = capped(limits, max_ttl_secs, name, more);
            let longer = kept.records.push(shortened(record, max_ttl_secs));
            &&& kept.rcode == answer.rcode
            &&& kept.authoritative == answer.authoritative
            &&& kept.recursion_available == answer.recursion_available
            &&& answer.records.len() == 0 ==> kept == answer
            &&& after.records == (if answer.records.len() < limits.max_response_records
                && answer_bytes(name, longer) <= limits.max_response_bytes && answer_bytes(
                name,
                longer,
            ) <= (16 + wire_bytes(name)) * limits.max_response_amplification {
                longer
            } else {
                kept.records
            })
        }),
{
    let more = AnswerView { records: answer.records.push(record), ..answer };
    let short = Seq::new(
        answer.records.len(),
        |i: int| capped_ttl(answer.records[i], max_ttl_secs),
    );
    let short_more = Seq::new(
        more.records.len(),
        |i: int| capped_ttl(more.records[i], max_ttl_secs),
    );
    let most = limits.max_response_records as int;
    let some = first_records(short, most);
    let some_more = first_records(short_more, most);
    let limit = answer_limit(limits, name);
    let last = shortened(record, max_ttl_secs);
    assert(last == capped_ttl(record, max_ttl_secs));
    assert(short_more =~= short.push(last));
    capped_prefix(limits, max_ttl_secs, name, answer);
    let kept = capped(limits, max_ttl_secs, name, answer).records;
    let longer = kept.push(last);
    assert(longer.drop_last() =~= kept);
    answers_take_bytes(name, kept);
    if answer.records.len() == 0 {
        assert(some =~= Seq::empty());
        assert(kept =~= answer.records);
    }
    if answer.records.len() < most {
        assert(some =~= short);
        assert(some_more =~= short_more);
        assert(some_more.drop_last() =~= some);
        let product = question_bytes(name) * limits.max_response_amplification;
        assert(product >= 0) by (nonlinear_arith)
            requires
                question_bytes(name) >= 0,
                limits.max_response_amplification >= 0,
                product == question_bytes(name) * limits.max_response_amplification,
        ;
    } else {
        assert(some_more =~= some) by {
            assert(short_more.take(most) =~= short.take(most));
            if answer.records.len() == most {
                assert(short.take(most) =~= short);
            }
        }
    }
}

/// An answer without records is kept as it is.
pub proof fn answers_without_records_are_kept(
    limits: AdmissionView,
    max_ttl_secs: u64,
    name: Seq<char>,
    answer: AnswerView,
)
    requires
        answer.records.len() == 0,
    ensures
        capped(limits, max_ttl_secs, name, answer) == answer,
{
    let short = Seq::new(
        answer.records.len(),
        |i: int| capped_ttl(answer.records[i], max_ttl_secs),
    );
    assert(first_records(short, limits.max_response_records as int) =~= Seq::empty());
    assert(capped(limits, max_ttl_secs, name, answer).records =~= answer.records);
}

/// An answer that is within every limit is kept as it is.
pub proof fn answers_within_the_limits_are_kept(
    limits: AdmissionView,
    max_ttl_secs: u64,
    name: Seq<char>,
    answer: AnswerView,
)
    requires
        limits.max_response_bytes < usize::MAX,
        answer.records.len() <= limits.max_response_records,
        answer_bytes(name, answer.records) <= limits.max_response_bytes,
        answer_bytes(name, answer.records) <= (16 + wire_bytes(name))
            * limits.max_response_amplification,
        forall|i: int|
            0 <= i < answer.records.len() ==> (#[trigger] answer.records[i]).ttl <= max_ttl_secs,
    ensures
        capped(limits, max_ttl_secs, name, answer) == answer,
    decreases answer.records.len(),
{
    answers_take_bytes(name, answer.records);
    if answer.records.len() > 0 {
        let front = AnswerView { records: answer.records.drop_last(), ..answer };
        let last = answer.records.last();
        assert(answer.records.drop_last().push(last) =~= answer.records);
        assert(answer.records[answer.records.len() - 1].ttl <= max_ttl_secs);
        assert forall|i: int| 0 <= i < front.records.len() implies (#[trigger] front.records[i]).ttl
            <= max_ttl_secs by {
            assert(front.records[i] == answer.records[i]);
        }
        answers_within_the_limits_are_kept(limits, max_ttl_secs, name, front);
        records_are_kept_where_they_fit(limits, max_ttl_secs, name, front, last);
        assert(shortened(last, max_ttl_secs) == last);
    } else {
        answers_without_records_are_kept(limits, max_ttl_secs, name, answer);
    }
}

/// A query is admitted exactly where its name, without the dots at its end, takes no more bytes than
/// the limit and is the root or made of labels of 1 to 63 ASCII characters, its type and its class
/// are not zero, and it does not ask for everything where that is refused.
pub proof fn admitted_queries_are_well_formed(
    limits: AdmissionView,
    name: Seq<char>,
    qtype: u16,
    qclass: u16,
)
    ensures
        ({
            let bare = trim_end_of(name, '.');
            let labels = split(bare, '.');
            admitted(limits, name, qtype, qclass) <==> {
                &&& byte_len(bare) <= limits.max_name_bytes
                &&& qtype != 0 && qclass != 0
                &&& limits.reject_any ==> qtype != 255
                &&& bare.len() == 0 || forall|i: int|
                    0 <= i < labels.len() ==> 1 <= (#[trigger] labels[i]).len() <= 63 && forall|
                        k: int,
                    |
                        0 <= k < labels[i].len() ==> (#[trigger] labels[i][k]) as u32 <= 127
            }
        }),
{
    let bare = trim_end_of(name, '.');
    let labels = split(bare, '.');
    assert forall|i: int| 0 <= i < labels.len() implies (listed_label(#[trigger] labels[i]) <==> 1
        <= labels[i].len() <= 63 && forall|k: int|
        0 <= k < labels[i].len() ==> (#[trigger] labels[i][k]) as u32 <= 127) by {
        if listed_label(labels[i]) {
            assert forall|k: int| 0 <= k < labels[i].len() implies (#[trigger] labels[i][k]) as u32
                <= 127 by {
                assert(crate::names::ascii(labels[i][k]));
            }
        }
    }
}

/// A client is denied exactly where one of the entries is a network that holds its address; a caller
/// without an address never is.
pub proof fn denied_clients_are_in_a_denied_network(list: Seq<Seq<char>>, client: IpAddr)
    ensures
        !on_deny_list(list, None),
        on_deny_list(list, Some(client)) <==> exists|i: int, n: IpNetwork|
            0 <= i < list.len() && network(#[trigger] list[i]) == Some(n) && #[trigger] in_network(
                n,
                client,
            ),
{
    if on_deny_list(list, Some(client)) {
        let i = choose|i: int|
            0 <= i < list.len() && network(#[trigger] list[i]) is Some && in_network(
                network(list[i])->0,
                client,
            );
        let n = network(list[i])->0;
        assert(network(list[i]) == Some(n) && in_network(n, client));
    }
}

/// Limits are accepted at startup exactly where none that must be at least one is zero, the longest
/// name has 1 to 253 bytes, answers may take a header, the rate for all is at most a million, the
/// prefixes fit their addresses, and at most 256 networks are denied, all of which can be read.
pub proof fn accepted_limits_are_usable(limits: AdmissionView)
    ensures
        startup_fault(limits) is None <==> {
            &&& 1 <= limits.max_name_bytes <= 253
            &&& limits.deny_client_cidrs.len() <= 256
            &&& forall|i: int|
                0 <= i < limits.deny_client_cidrs.len() ==> network(
                    #[trigger] limits.deny_client_cidrs[i],
                ) is Some && byte_len(limits.deny_client_cidrs[i]) <= 253
            &&& limits.max_response_records >= 1
            &&& limits.max_response_bytes >= 12
            &&& limits.max_response_amplification >= 1
            &&& limits.max_inflight_requests >= 1
            &&& 1 <= limits.max_queries_per_second <= 1_000_000
            &&& limits.max_inflight_per_client >= 1
            &&& limits.max_queries_per_client_per_second >= 1
            &&& limits.max_response_bytes_per_client_per_second >= 1
            &&& limits.max_response_bytes_per_network_per_second >= 1
            &&& limits.max_response_bytes_per_second >= 1
            &&& limits.max_network_abuse_violations >= 1
            &&& limits.network_abuse_window_secs >= 1
            &&& limits.network_abuse_cooldown_secs >= 1
            &&& limits.network_abuse_ipv4_prefix <= 32
            &&& limits.network_abuse_ipv6_prefix <= 128
            &&& limits.max_client_abuse_violations >= 1
            &&& limits.client_abuse_window_secs >= 1
            &&& limits.client_abuse_cooldown_secs >= 1
            &&& limits.ddos.global_abuse_window_secs >= 1
            &&& limits.ddos.global_abuse_cooldown_secs >= 1
        },
{
    assert forall|i: int| 0 <= i < limits.deny_client_cidrs.len() implies (deny_entry(
        #[trigger] limits.deny_client_cidrs[i],
    ) <==> network(limits.deny_client_cidrs[i]) is Some && byte_len(limits.deny_client_cidrs[i])
        <= 253) by {}
}

/// Limits replace others while running exactly where a start would accept them and the number of
/// requests in flight stays.
pub proof fn replacements_keep_the_requests_in_flight(limits: AdmissionView, inflight: usize)
    requires
        inflight > 0,
    ensures
        replacement_fault(limits, inflight) is None <==> startup_fault(limits) is None
            && limits.max_inflight_requests == inflight,
{
}

/// Settings on logs and recordings are accepted exactly where an enabled log has 1 to 65536 entries
/// and a retention, a recording has a path of 1 to 4096 bytes, at most a gibibyte and 1 to 16 files,
/// and incidents are persisted only with a recording.
pub proof fn accepted_privacy_is_bounded(privacy: PrivacyConfig, persist_incidents: bool)
    ensures
        privacy_fault(privacy, persist_incidents) is None <==> {
            &&& privacy.query_log_enabled ==> 1 <= privacy.query_log_max_entries <= 65_536
                && privacy.query_log_retention_secs >= 1
            &&& privacy.query_recording_path matches Some(path) ==> path@.len() > 0 && byte_len(
                path@,
            ) <= 4096 && 1 <= privacy.query_recording_max_bytes <= 1_073_741_824 && 1
                <= privacy.query_recording_max_files <= 16
            &&& persist_incidents ==> privacy.query_recording_path is Some
        },
{
}

/// A response is an amplification exactly where there was a query and the response has the ratio's
/// multiple of its bytes or more.
pub proof fn amplification_is_a_multiple(query_bytes: usize, response_bytes: usize, ratio: usize)
    requires
        query_bytes * ratio < usize::MAX,
    ensures
        amplified(query_bytes, response_bytes, ratio) <==> query_bytes > 0 && response_bytes
            >= query_bytes * ratio,
{
}

} // verus!
