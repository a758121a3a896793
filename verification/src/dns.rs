//! DNS queries and answers as plain values, and the bytes they take on the wire.
use vstd::prelude::*;
use vstd::string::*;
use vstd::utf8::encode_utf8;

use crate::config::HoneypotConfig;
use crate::lists::copy_list;
use crate::names::{dns_name, host_label, normal};
use crate::query::{be16, dotted, dotted_labels, label_text, labels, name_end, query_flags, question,
    QueryParseError, QuestionView, MAX_QUERY_BYTES};
use crate::text::{split, split_at_char, split_nonempty, to_chars, to_text, views};

verus! {

/// A query with its name in text form.
#[derive(Clone, Debug, PartialEq, Eq)]
pub struct DnsQuery {
    pub id: u16,
    pub recursion_desired: bool,
    pub name: String,
    pub qtype: u16,
    pub qclass: u16,
}

#[derive(Clone, Debug, PartialEq, Eq)]
pub struct DnsAnswerRecord {
    pub name: String,
    pub rtype: u16,
    pub rclass: u16,
    pub ttl: u32,
    pub rdata: Vec<u8>,
}

#[derive(Clone, Debug, PartialEq, Eq)]
pub struct DnsAnswer {
    pub rcode: u8,
    pub authoritative: bool,
    pub recursion_available: bool,
    pub records: Vec<DnsAnswerRecord>,
}

/// The value of a record.
pub struct RecordView {
    pub name: Seq<char>,
    pub rtype: u16,
    pub rclass: u16,
    pub ttl: u32,
    pub rdata: Seq<u8>,
}

/// The value of an answer.
pub struct AnswerView {
    pub rcode: u8,
    pub authoritative: bool,
    pub recursion_available: bool,
    pub records: Seq<RecordView>,
}

impl View for DnsAnswerRecord {
    type V = RecordView;

    open spec fn view(&self) -> RecordView {
        RecordView {
            name: self.name@,
            rtype: self.rtype,
            rclass: self.rclass,
            ttl: self.ttl,
            rdata: self.rdata@,
        }
    }
}

pub open spec fn record_views(records: Seq<DnsAnswerRecord>) -> Seq<RecordView> {
    Seq::new(records.len(), |i: int| records[i]@)
}

impl View for DnsAnswer {
    type V = AnswerView;

    open spec fn view(&self) -> AnswerView {
        AnswerView {
            rcode: self.rcode,
            authoritative: self.authoritative,
            recursion_available: self.recursion_available,
            records: record_views(self.records@),
        }
    }
}

impl DnsAnswerRecord {
    pub fn copied(&self) -> (r: DnsAnswerRecord)
        ensures
            r@ == self@,
    {
        DnsAnswerRecord {
            name: self.name.clone(),
            rtype: self.rtype,
            rclass: self.rclass,
            ttl: self.ttl,
            rdata: copy_list(&self.rdata),
        }
    }
}

/// A successful answer with the given records.
pub open spec fn ok_answer(records: Seq<RecordView>) -> AnswerView {
    AnswerView { rcode: 0, authoritative: false, recursion_available: true, records }
}

/// The answer that the name does not exist.
pub open spec fn no_such_name() -> AnswerView {
    AnswerView { rcode: 3, authoritative: false, recursion_available: true, records: Seq::empty() }
}

/// The answer that the query is refused.
pub open spec fn refusal() -> AnswerView {
    AnswerView { rcode: 5, authoritative: false, recursion_available: true, records: Seq::empty() }
}

/// The answer that the server failed.
pub open spec fn failure() -> AnswerView {
    AnswerView { rcode: 2, authoritative: false, recursion_available: true, records: Seq::empty() }
}

impl DnsAnswer {
    pub fn ok(records: Vec<DnsAnswerRecord>) -> (r: DnsAnswer)
        ensures
            r@ == ok_answer(record_views(records@)),
    {
        DnsAnswer { rcode: 0, authoritative: false, recursion_available: true, records }
    }

    pub fn name_error() -> (r: DnsAnswer)
        ensures
            r@ == no_such_name(),
    {
        let r = DnsAnswer {
            rcode: 3,
            authoritative: false,
            recursion_available: true,
            records: Vec::new(),
        };
        assert(r@.records =~= Seq::<RecordView>::empty());
        r
    }

    pub fn copied(&self) -> (r: DnsAnswer)
        ensures
            r@ == self@,
    {
        let mut records: Vec<DnsAnswerRecord> = Vec::new();
        let ghost all = record_views(self.records@);
        let mut i: usize = 0;
        assert(record_views(records@) =~= all.take(0));
        while i < self.records.len()
            invariant
                i <= self.records.len(),
                all == record_views(self.records@),
                record_views(records@) == all.take(i as int),
            decreases self.records.len() - i,
        {
            let ghost before = record_views(records@);
            let record = self.records[i].copied();
            assert(record@ == all[i as int]);
            records.push(record);
            assert(record_views(records@) =~= before.push(all[i as int]));
            i = i + 1;
            assert(all.take(i as int) =~= all.take(i as int - 1).push(all[i as int - 1]));
        }
        assert(all.take(i as int) =~= all);
        DnsAnswer {
            rcode: self.rcode,
            authoritative: self.authoritative,
            recursion_available: self.recursion_available,
            records,
        }
    }
}

/// The answer of a query that is refused.
pub fn refused_answer() -> (r: DnsAnswer)
    ensures
        r@ == refusal(),
{
    let r = DnsAnswer {
        rcode: 5,
        authoritative: false,
        recursion_available: true,
        records: Vec::new(),
    };
    assert(r@.records =~= Seq::<RecordView>::empty());
    r
}

/// The answer of a server that failed.
pub fn server_failure_answer() -> (r: DnsAnswer)
    ensures
        r@ == failure(),
{
    let r = DnsAnswer {
        rcode: 2,
        authoritative: false,
        recursion_available: true,
        records: Vec::new(),
    };
    assert(r@.records =~= Seq::<RecordView>::empty());
    r
}

// ---- address records -----------------------------------------------------------------

/// The data of an A record.
pub open spec fn ipv4_rdata(address: u32) -> Seq<u8> {
    crate::dhcp::octets(address)
}

/// The data of an AAAA record.
pub open spec fn ipv6_rdata(address: u128) -> Seq<u8> {
    crate::dhcp::octets((address / 0x1_0000_0000_0000_0000_0000_0000) as u32)
        + crate::dhcp::octets((address / 0x1_0000_0000_0000_0000 % 0x1_0000_0000) as u32)
        + crate::dhcp::octets((address / 0x1_0000_0000 % 0x1_0000_0000) as u32)
        + crate::dhcp::octets((address % 0x1_0000_0000) as u32)
}

fn push_octets(out: &mut Vec<u8>, value: u32)
    ensures
        final(out)@ == old(out)@ + crate::dhcp::octets(value),
{
    let ghost start = out@;
    out.push((value / 0x1000000) as u8);
    out.push((value / 0x10000 % 0x100) as u8);
    out.push((value / 0x100 % 0x100) as u8);
    out.push((value % 0x100) as u8);
    assert(out@ =~= start + crate::dhcp::octets(value));
}

pub fn ipv4_bytes(address: u32) -> (r: Vec<u8>)
    ensures
        r@ == ipv4_rdata(address),
        r@.len() == 4,
{
    let mut out: Vec<u8> = Vec::new();
    push_octets(&mut out, address);
    assert(out@ =~= ipv4_rdata(address));
    out
}

pub fn ipv6_bytes(address: u128) -> (r: Vec<u8>)
    ensures
        r@ == ipv6_rdata(address),
        r@.len() == 16,
{
    let mut out: Vec<u8> = Vec::new();
    push_octets(&mut out, (address / 0x1_0000_0000_0000_0000_0000_0000) as u32);
    push_octets(&mut out, (address / 0x1_0000_0000_0000_0000 % 0x1_0000_0000) as u32);
    push_octets(&mut out, (address / 0x1_0000_0000 % 0x1_0000_0000) as u32);
    push_octets(&mut out, (address % 0x1_0000_0000) as u32);
    assert(out@ =~= ipv6_rdata(address));
    out
}

/// One address record.
pub open spec fn address_record(name: Seq<char>, rtype: u16, ttl: u32, rdata: Seq<u8>) -> RecordView {
    RecordView { name, rtype, rclass: 1, ttl, rdata }
}

/// The answer that points a query at the synthetic addresses; only address queries get one.
pub open spec fn honeypot_answer(
    name: Seq<char>,
    qtype: u16,
    config: HoneypotConfig,
) -> AnswerView {
    if qtype == 1 {
        ok_answer(seq![address_record(name, 1, config.ttl, ipv4_rdata(config.ipv4))])
    } else if qtype == 28 {
        ok_answer(seq![address_record(name, 28, config.ttl, ipv6_rdata(config.ipv6))])
    } else {
        ok_answer(Seq::empty())
    }
}

/// Builds the synthetic answer. It has no access to payloads, clients or storage.
pub fn synthetic_honeypot_answer(name: &str, qtype: u16, config: &HoneypotConfig) -> (r: DnsAnswer)
    ensures
        r@ == honeypot_answer(name@, qtype, *config),
{
    let mut records: Vec<DnsAnswerRecord> = Vec::new();
    if qtype == 1 {
        records.push(
            DnsAnswerRecord {
                name: name.to_owned(),
                rtype: 1,
                rclass: 1,
                ttl: config.ttl,
                rdata: ipv4_bytes(config.ipv4),
            },
        );
    } else if qtype == 28 {
        records.push(
            DnsAnswerRecord {
                name: name.to_owned(),
                rtype: 28,
                rclass: 1,
                ttl: config.ttl,
                rdata: ipv6_bytes(config.ipv6),
            },
        );
    }
    let r = DnsAnswer::ok(records);
    assert(r@.records =~= honeypot_answer(name@, qtype, *config).records);
    r
}

/// A synthetic answer holds at most one record, and that one is an address of its length.
pub proof fn honeypot_answers_are_addresses(name: Seq<char>, qtype: u16, config: HoneypotConfig)
    ensures
        ({
            let records = honeypot_answer(name, qtype, config).records;
            &&& records.len() <= 1
            &&& forall|i: int|
                0 <= i < records.len() ==> ((#[trigger] records[i]).rtype == 1
                    && records[i].rdata.len() == 4) || (records[i].rtype == 28
                    && records[i].rdata.len() == 16)
        }),
{
}

// ---- names on the wire ---------------------------------------------------------------

/// Why a name has no wire form.
#[derive(Clone, Copy, Debug, PartialEq, Eq, Structural)]
pub enum NameError {
    LabelTooLong,
    NameTooLong,
    TooManyRecords,
}

/// Labels behind their lengths: each at most 63 bytes, all together at most 254.
pub open spec fn wire_labels(labels: Seq<Seq<char>>) -> Result<Seq<u8>, NameError>
    decreases labels.len(),
{
    if labels.len() == 0 {
        Ok(Seq::empty())
    } else {
        match wire_labels(labels.drop_last()) {
            Err(error) => Err(error),
            Ok(bytes) => {
                let label = encode_utf8(labels.last());
                if label.len() > 63 {
                    Err(NameError::LabelTooLong)
                } else if bytes.len() + label.len() + 1 > 254 {
                    Err(NameError::NameTooLong)
                } else {
                    Ok(bytes.push(label.len() as u8) + label)
                }
            },
        }
    }
}

/// The name without one trailing dot.
pub open spec fn without_dot(name: Seq<char>) -> Seq<char> {
    if name.len() > 0 && name.last() == '.' {
        name.drop_last()
    } else {
        name
    }
}

/// The wire form of a name: its labels and the root; the root alone is a single zero.
pub open spec fn wire_name(name: Seq<char>) -> Result<Seq<u8>, NameError> {
    let trimmed = without_dot(name);
    if trimmed.len() == 0 {
        Ok(seq![0u8])
    } else {
        match wire_labels(split(trimmed, '.')) {
            Ok(bytes) => Ok(bytes.push(0)),
            Err(error) => Err(error),
        }
    }
}

proof fn wire_labels_error_stays(labels: Seq<Seq<char>>, n: int)
    requires
        0 <= n <= labels.len(),
        wire_labels(labels.take(n)) is Err,
    ensures
        wire_labels(labels) == wire_labels(labels.take(n)),
    decreases labels.len(),
{
    if n == labels.len() {
        assert(labels.take(n) =~= labels);
    } else {
        assert(labels.drop_last().take(n) =~= labels.take(n));
        wire_labels_error_stays(labels.drop_last(), n);
    }
}

fn push_bytes(out: &mut Vec<u8>, bytes: &[u8])
    ensures
        final(out)@ == old(out)@ + bytes@,
{
    let ghost start = out@;
    let mut i: usize = 0;
    assert(start + bytes@.take(0) =~= start);
    while i < bytes.len()
        invariant
            i <= bytes.len(),
            out@ == start + bytes@.take(i as int),
        decreases bytes.len() - i,
    {
        out.push(bytes[i]);
        i = i + 1;
        assert(out@ =~= start + bytes@.take(i as int));
    }
    assert(bytes@.take(i as int) =~= bytes@);
}

/// Encodes a name for the wire.
pub fn encode_name(name: &str) -> (r: Result<Vec<u8>, NameError>)
    ensures
        match wire_name(name@) {
            Ok(bytes) => r is Ok && r->Ok_0@ == bytes,
            Err(error) => r == Err::<Vec<u8>, NameError>(error),
        },
{
    let mut chars = to_chars(name);
    if chars.len() > 0 && chars[chars.len() - 1] == '.' {
        let _dot = chars.pop();
    }
    assert(chars@ =~= without_dot(name@));
    let mut out: Vec<u8> = Vec::new();
    if chars.len() == 0 {
        out.push(0);
        assert(out@ =~= seq![0u8]);
        return Ok(out);
    }
    let labels = split_at_char(&chars, '.');
    let ghost all = split(chars@, '.');
    let mut i: usize = 0;
    assert(all.take(0).len() == 0);
    while i < labels.len()
        invariant
            i <= labels.len(),
            all == views(labels@),
            all == split(without_dot(name@), '.'),
            without_dot(name@).len() > 0,
            wire_labels(all.take(i as int)) == Ok::<Seq<u8>, NameError>(out@),
            out.len() <= 254,
        decreases labels.len() - i,
    {
        let ghost next = all.take(i as int + 1);
        assert(next.drop_last() =~= all.take(i as int));
        assert(next.last() == labels[i as int]@);
        let text = to_text(&labels[i]);
        let bytes = text.as_str().as_bytes();
        let size: usize = bytes.len();
        if size > 63 {
            proof {
                wire_labels_error_stays(all, i as int + 1);
            }
            return Err(NameError::LabelTooLong);
        }
        if out.len() + size + 1 > 254 {
            proof {
                wire_labels_error_stays(all, i as int + 1);
            }
            return Err(NameError::NameTooLong);
        }
        out.push(size as u8);
        push_bytes(&mut out, bytes);
        i = i + 1;
    }
    assert(all.take(i as int) =~= all);
    out.push(0);
    Ok(out)
}

/// The characters of the labels, with one more for each.
spec fn label_chars(labels: Seq<Seq<char>>) -> int
    decreases labels.len(),
{
    if labels.len() == 0 {
        0
    } else {
        label_chars(labels.drop_last()) + labels.last().len() + 1
    }
}

proof fn label_chars_update(labels: Seq<Seq<char>>, extra: char)
    requires
        labels.len() > 0,
    ensures
        label_chars(labels.update(labels.len() - 1, labels.last().push(extra))) == label_chars(
            labels,
        ) + 1,
{
    let next = labels.update(labels.len() - 1, labels.last().push(extra));
    assert(next.drop_last() =~= labels.drop_last());
}

proof fn split_counts(s: Seq<char>)
    ensures
        label_chars(split(s, '.')) == s.len() + 1,
    decreases s.len(),
{
    if s.len() == 0 {
        assert(split(s, '.').drop_last() =~= Seq::<Seq<char>>::empty());
        assert(label_chars(split(s, '.').drop_last()) == 0);
    } else {
        split_counts(s.drop_last());
        split_nonempty(s.drop_last(), '.');
        let before = split(s.drop_last(), '.');
        if s.last() == '.' {
            assert(before.push(Seq::empty()).drop_last() =~= before);
        } else {
            label_chars_update(before, s.last());
        }
    }
}

proof fn host_labels_encode(labels: Seq<Seq<char>>)
    requires
        forall|i: int| 0 <= i < labels.len() ==> host_label(#[trigger] labels[i]),
        label_chars(labels) <= 254,
    ensures
        wire_labels(labels) is Ok,
        wire_labels(labels)->Ok_0.len() == label_chars(labels),
    decreases labels.len(),
{
    if labels.len() > 0 {
        let front = labels.drop_last();
        assert forall|i: int| 0 <= i < front.len() implies host_label(#[trigger] front[i]) by {
            assert(front[i] == labels[i]);
        }
        host_labels_encode(front);
        let label = labels.last();
        assert(host_label(labels[labels.len() - 1]));
        assert(vstd::utf8::is_ascii_chars(label)) by {
            assert forall|i: int| 0 <= i < label.len() implies 0 <= label[i] as nat && (
            label[i] as nat) < 128 by {
                assert(crate::names::alphanumeric(label[i]) || label[i] == '-');
            }
        }
        vstd::utf8::is_ascii_chars_encode_utf8(label);
    }
}

/// A valid name always fits the wire.
pub proof fn valid_names_have_a_wire_form(name: Seq<char>)
    requires
        dns_name(name),
    ensures
        wire_name(name) is Ok,
{
    let trimmed = without_dot(name);
    if name.len() > 0 {
        let labels = split(name, '.');
        if name.last() == '.' {
            assert(labels.last() == Seq::<char>::empty());
            assert(host_label(labels[labels.len() - 1]));
        }
        assert(trimmed == name);
        split_counts(name);
        host_labels_encode(labels);
    }
}

// ---- names read back -----------------------------------------------------------------

/// The bytes of each label.
spec fn label_bytes(labels: Seq<Seq<char>>) -> Seq<Seq<u8>> {
    Seq::new(labels.len(), |i: int| encode_utf8(labels[i]))
}

spec fn all_host_labels(labels: Seq<Seq<char>>) -> bool {
    forall|i: int| 0 <= i < labels.len() ==> host_label(#[trigger] labels[i])
}

proof fn host_label_reads_back(label: Seq<char>)
    requires
        host_label(label),
    ensures
        encode_utf8(label).len() == label.len(),
        label_text(encode_utf8(label)) == label,
{
    assert(vstd::utf8::is_ascii_chars(label)) by {
        assert forall|i: int| 0 <= i < label.len() implies 0 <= label[i] as nat && (
        label[i] as nat) < 128 by {
            assert(crate::names::alphanumeric(label[i]) || label[i] == '-');
        }
    }
    vstd::utf8::is_ascii_chars_encode_utf8(label);
    assert(label_text(encode_utf8(label)) =~= label) by {
        assert forall|i: int| 0 <= i < label.len() implies label_text(encode_utf8(label))[i]
            == label[i] by {
            assert(crate::names::alphanumeric(label[i]) || label[i] == '-');
        }
    }
}

// The labels of a written name are cut out again, whatever follows them.
proof fn written_labels_are_cut_out(list: Seq<Seq<char>>, rest: Seq<u8>)
    requires
        all_host_labels(list),
        wire_labels(list) is Ok,
    ensures
        labels(wire_labels(list)->Ok_0 + rest) == label_bytes(list) + labels(rest),
    decreases list.len(),
{
    let bytes = wire_labels(list)->Ok_0;
    if list.len() == 0 {
        assert(bytes + rest =~= rest);
        assert(label_bytes(list) + labels(rest) =~= labels(rest));
    } else {
        let front = list.drop_last();
        assert forall|i: int| 0 <= i < front.len() implies host_label(#[trigger] front[i]) by {
            assert(front[i] == list[i]);
        }
        assert(host_label(list[list.len() - 1]));
        let before = wire_labels(front)->Ok_0;
        let label = encode_utf8(list.last());
        host_label_reads_back(list.last());
        let tail = seq![label.len() as u8] + label + rest;
        written_labels_are_cut_out(front, tail);
        assert(bytes + rest =~= before + tail);
        assert(tail.subrange(1, 1 + tail[0]) =~= label);
        assert(tail.skip(1 + tail[0]) =~= rest);
        assert(labels(tail) == seq![label] + labels(rest));
        assert(label_bytes(front) + (seq![label] + labels(rest)) =~= label_bytes(list) + labels(
            rest,
        ));
    }
}

// The end of a written name is found, wherever it stands.
proof fn written_labels_are_passed(list: Seq<Seq<char>>, before: Seq<u8>, rest: Seq<u8>)
    requires
        all_host_labels(list),
        wire_labels(list) is Ok,
    ensures
        ({
            let bytes = wire_labels(list)->Ok_0;
            name_end(before + bytes + rest, before.len() as int) == name_end(
                before + bytes + rest,
                (before.len() + bytes.len()) as int,
            )
        }),
    decreases list.len(),
{
    if list.len() > 0 {
        let bytes = wire_labels(list)->Ok_0;
        let front = list.drop_last();
        assert forall|i: int| 0 <= i < front.len() implies host_label(#[trigger] front[i]) by {
            assert(front[i] == list[i]);
        }
        assert(host_label(list[list.len() - 1]));
        let head = wire_labels(front)->Ok_0;
        let label = encode_utf8(list.last());
        host_label_reads_back(list.last());
        let tail = seq![label.len() as u8] + label + rest;
        written_labels_are_passed(front, before, tail);
        let packet = before + bytes + rest;
        assert(packet =~= before + head + tail);
        let at = (before.len() + head.len()) as int;
        assert(packet[at] == label.len());
    }
}

/// Labels with a dot behind each.
spec fn with_dots(list: Seq<Seq<char>>) -> Seq<char>
    decreases list.len(),
{
    if list.len() == 0 {
        Seq::empty()
    } else {
        with_dots(list.drop_last()) + list.last().push('.')
    }
}

proof fn pieces_make_the_name(name: Seq<char>)
    ensures
        with_dots(split(name, '.')) == name.push('.'),
    decreases name.len(),
{
    let pieces = split(name, '.');
    if name.len() == 0 {
        assert(pieces.drop_last() =~= Seq::<Seq<char>>::empty());
        assert(with_dots(pieces.drop_last()) =~= Seq::<char>::empty());
        assert(with_dots(pieces) =~= name.push('.'));
    } else {
        let front = name.drop_last();
        pieces_make_the_name(front);
        split_nonempty(front, '.');
        let before = split(front, '.');
        assert(front.push(name.last()) =~= name);
        if name.last() == '.' {
            assert(pieces.drop_last() =~= before);
            assert(with_dots(pieces) =~= name.push('.'));
        } else {
            assert(pieces.drop_last() =~= before.drop_last());
            let kept = with_dots(before.drop_last());
            assert(kept + before.last().push('.') == front.push('.'));
            assert(kept + before.last() =~= front) by {
                assert((kept + before.last().push('.')).drop_last() =~= kept + before.last());
                assert(front.push('.').drop_last() =~= front);
            }
            assert(with_dots(pieces) =~= (kept + before.last()).push(name.last()).push('.'));
        }
    }
}

proof fn dotted_labels_append(list: Seq<Seq<u8>>, last: Seq<u8>)
    ensures
        dotted_labels(list.push(last)) == dotted_labels(list) + label_text(last).push('.'),
    decreases list.len(),
{
    let all = list.push(last);
    if list.len() == 0 {
        assert(all.skip(1) =~= Seq::<Seq<u8>>::empty());
        assert(dotted_labels(all.skip(1)) =~= Seq::<char>::empty());
        assert(dotted_labels(all) =~= dotted_labels(list) + label_text(last).push('.'));
    } else {
        assert(all.skip(1) =~= list.skip(1).push(last));
        dotted_labels_append(list.skip(1), last);
        assert(dotted_labels(all) =~= dotted_labels(list) + label_text(last).push('.'));
    }
}

proof fn labels_read_back(list: Seq<Seq<char>>)
    requires
        all_host_labels(list),
    ensures
        dotted_labels(label_bytes(list)) == with_dots(list),
    decreases list.len(),
{
    if list.len() == 0 {
        assert(dotted_labels(label_bytes(list)) =~= with_dots(list));
    } else {
        let front = list.drop_last();
        assert forall|i: int| 0 <= i < front.len() implies host_label(#[trigger] front[i]) by {
            assert(front[i] == list[i]);
        }
        assert(host_label(list[list.len() - 1]));
        labels_read_back(front);
        host_label_reads_back(list.last());
        assert(label_bytes(list) =~= label_bytes(front).push(encode_utf8(list.last())));
        dotted_labels_append(label_bytes(front), encode_utf8(list.last()));
    }
}

/// A valid name that is written is read back, with the dot of the root behind it.
pub proof fn names_are_read_back(name: Seq<char>)
    requires
        dns_name(name),
    ensures
        wire_name(name) is Ok,
        dotted(wire_name(name)->Ok_0) == name.push('.'),
{
    valid_names_have_a_wire_form(name);
    let wire = wire_name(name)->Ok_0;
    if name.len() == 0 {
        assert(labels(wire) =~= Seq::<Seq<u8>>::empty());
        assert(dotted(wire) =~= name.push('.'));
    } else {
        let pieces = split(name, '.');
        split_nonempty(name, '.');
        assert(host_label(pieces[pieces.len() - 1]));
        if name.last() == '.' {
            assert(pieces.last() == Seq::<char>::empty());
        }
        assert(without_dot(name) == name);
        written_labels_are_cut_out(pieces, seq![0u8]);
        let bytes = wire_labels(pieces)->Ok_0;
        assert(bytes + seq![0u8] =~= wire);
        assert(labels(seq![0u8]) =~= Seq::<Seq<u8>>::empty());
        assert(labels(wire) =~= label_bytes(pieces));
        labels_read_back(pieces);
        pieces_make_the_name(name);
    }
}

/// A question that is written behind the header of a query is the one that is read, whatever
/// follows it.
pub proof fn questions_are_read_back(
    header: Seq<u8>,
    name: Seq<char>,
    qtype: u16,
    qclass: u16,
    rest: Seq<u8>,
)
    requires
        dns_name(name),
        header.len() == 12,
        query_flags(header),
        be16(header, 4) == 1,
        12 + wire_name(name)->Ok_0.len() + 4 + rest.len() <= MAX_QUERY_BYTES,
    ensures
        ({
            let wire = wire_name(name)->Ok_0;
            let packet = header + wire + be16_bytes(qtype as int) + be16_bytes(qclass as int)
                + rest;
            question(packet) == Ok::<QuestionView, QueryParseError>(
                QuestionView {
                    id: be16(header, 0),
                    recursion_desired: header[2] % 2 == 1,
                    wire,
                    qtype,
                    qclass,
                },
            ) && dotted(wire) == name.push('.')
        }),
{
    names_are_read_back(name);
    let wire = wire_name(name)->Ok_0;
    let tail = be16_bytes(qtype as int) + be16_bytes(qclass as int) + rest;
    let packet = header + wire + be16_bytes(qtype as int) + be16_bytes(qclass as int) + rest;
    assert(packet =~= header + wire + tail);
    let end = (12 + wire.len()) as int;
    assert(name_end(packet, 12) == Ok::<int, QueryParseError>(end) && wire.len() <= 255) by {
        if name.len() == 0 {
            assert(packet[12] == 0);
        } else {
            let pieces = split(name, '.');
            split_nonempty(name, '.');
            assert(host_label(pieces[pieces.len() - 1]));
            if name.last() == '.' {
                assert(pieces.last() == Seq::<char>::empty());
            }
            assert(without_dot(name) == name);
            let bytes = wire_labels(pieces)->Ok_0;
            written_labels_are_passed(pieces, header, seq![0u8] + tail);
            assert(packet =~= header + bytes + (seq![0u8] + tail));
            assert(packet[(12 + bytes.len()) as int] == 0);
        }
    }
    assert(packet.subrange(12, end) =~= wire);
    assert(packet[end] == (qtype / 256) as u8 && packet[end + 1] == (qtype % 256) as u8);
    assert(packet[end + 2] == (qclass / 256) as u8 && packet[end + 3] == (qclass % 256) as u8);
    assert(packet[0] == header[0] && packet[1] == header[1] && packet[2] == header[2]);
    assert(packet[4] == header[4] && packet[5] == header[5]);
}

/// The data of an alias record: one uncompressed name that fills it and is a valid name. A
/// compressed name is never valid here, since a pointer would have to lead to a zero byte
/// inside one of the name's own labels.
pub open spec fn alias_rdata(rdata: Seq<u8>) -> bool {
    &&& name_end(rdata, 0) == Ok::<int, QueryParseError>(rdata.len() as int)
    &&& dns_name(normal(dotted(rdata)))
}

// ---- whole responses -----------------------------------------------------------------

/// The flags of a response.
pub open spec fn response_flags(
    recursion_desired: bool,
    authoritative: bool,
    recursion_available: bool,
    rcode: u8,
) -> int {
    0x8000 + (if authoritative {
        0x400int
    } else {
        0
    }) + (if recursion_desired {
        0x100int
    } else {
        0
    }) + (if recursion_available {
        0x80int
    } else {
        0
    }) + rcode % 16
}

pub open spec fn be16_bytes(value: int) -> Seq<u8> {
    seq![(value / 256) as u8, (value % 256) as u8]
}

/// A record on the wire.
pub open spec fn wire_record(record: RecordView) -> Result<Seq<u8>, NameError> {
    match wire_name(record.name) {
        Err(error) => Err(error),
        Ok(name) => if record.rdata.len() > 65535 {
            Err(NameError::NameTooLong)
        } else {
            Ok(
                name + be16_bytes(record.rtype as int) + be16_bytes(record.rclass as int)
                    + crate::dhcp::octets(record.ttl) + be16_bytes(record.rdata.len() as int)
                    + record.rdata,
            )
        },
    }
}

pub open spec fn wire_records(records: Seq<RecordView>) -> Result<Seq<u8>, NameError>
    decreases records.len(),
{
    if records.len() == 0 {
        Ok(Seq::empty())
    } else {
        match wire_records(records.drop_last()) {
            Err(error) => Err(error),
            Ok(bytes) => match wire_record(records.last()) {
                Err(error) => Err(error),
                Ok(record) => Ok(bytes + record),
            },
        }
    }
}

/// The header of a response with one question.
pub open spec fn response_header(id: u16, flags: int, answers: nat) -> Seq<u8> {
    be16_bytes(id as int) + be16_bytes(flags) + be16_bytes(1) + be16_bytes(answers as int)
        + be16_bytes(0) + be16_bytes(0)
}

/// A response on the wire: the header, the question that it answers, and the records.
pub open spec fn wire_response(
    id: u16,
    recursion_desired: bool,
    name: Seq<char>,
    qtype: u16,
    qclass: u16,
    answer: AnswerView,
) -> Result<Seq<u8>, NameError> {
    let flags = response_flags(
        recursion_desired,
        answer.authoritative,
        answer.recursion_available,
        answer.rcode,
    );
    if answer.records.len() > 65535 {
        Err(NameError::TooManyRecords)
    } else {
        match wire_name(name) {
            Err(error) => Err(error),
            Ok(question) => match wire_records(answer.records) {
                Err(error) => Err(error),
                Ok(records) => Ok(
                    response_header(id, flags, answer.records.len()) + question + be16_bytes(
                        qtype as int,
                    ) + be16_bytes(qclass as int) + records,
                ),
            },
        }
    }
}

fn push_be16(out: &mut Vec<u8>, value: u16)
    ensures
        final(out)@ == old(out)@ + be16_bytes(value as int),
{
    let ghost start = out@;
    out.push((value / 256) as u8);
    out.push((value % 256) as u8);
    assert(out@ =~= start + be16_bytes(value as int));
}

fn encode_record(record: &DnsAnswerRecord) -> (r: Result<Vec<u8>, NameError>)
    ensures
        match wire_record(record@) {
            Ok(bytes) => r is Ok && r->Ok_0@ == bytes,
            Err(error) => r == Err::<Vec<u8>, NameError>(error),
        },
{
    let mut out = match encode_name(record.name.as_str()) {
        Ok(name) => name,
        Err(error) => {
            return Err(error);
        },
    };
    if record.rdata.len() > 65535 {
        return Err(NameError::NameTooLong);
    }
    push_be16(&mut out, record.rtype);
    push_be16(&mut out, record.rclass);
    push_octets(&mut out, record.ttl);
    push_be16(&mut out, record.rdata.len() as u16);
    push_bytes(&mut out, &record.rdata);
    Ok(out)
}

proof fn wire_records_error_stays(records: Seq<RecordView>, n: int)
    requires
        0 <= n <= records.len(),
        wire_records(records.take(n)) is Err,
    ensures
        wire_records(records) == wire_records(records.take(n)),
    decreases records.len(),
{
    if n == records.len() {
        assert(records.take(n) =~= records);
    } else {
        assert(records.drop_last().take(n) =~= records.take(n));
        wire_records_error_stays(records.drop_last(), n);
    }
}

fn encode_records(records: &[DnsAnswerRecord]) -> (r: Result<Vec<u8>, NameError>)
    ensures
        match wire_records(record_views(records@)) {
            Ok(bytes) => r is Ok && r->Ok_0@ == bytes,
            Err(error) => r == Err::<Vec<u8>, NameError>(error),
        },
{
    let ghost all = record_views(records@);
    let mut out: Vec<u8> = Vec::new();
    let mut i: usize = 0;
    while i < records.len()
        invariant
            i <= records.len(),
            all == record_views(records@),
            wire_records(all.take(i as int)) == Ok::<Seq<u8>, NameError>(out@),
        decreases records.len() - i,
    {
        let ghost next = all.take(i as int + 1);
        assert(next.drop_last() =~= all.take(i as int));
        assert(next.last() == records[i as int]@);
        match encode_record(&records[i]) {
            Ok(bytes) => {
                push_bytes(&mut out, &bytes);
            },
            Err(error) => {
                proof {
                    wire_records_error_stays(all, i as int + 1);
                }
                return Err(error);
            },
        }
        i = i + 1;
    }
    assert(all.take(i as int) =~= all);
    Ok(out)
}

/// The flags of a response as a machine word.
pub fn flags_word(
    recursion_desired: bool,
    authoritative: bool,
    recursion_available: bool,
    rcode: u8,
) -> (r: u16)
    ensures
        r == response_flags(recursion_desired, authoritative, recursion_available, rcode),
{
    let mut flags: u16 = 0x8000 + (rcode % 16) as u16;
    if authoritative {
        flags = flags + 0x400;
    }
    if recursion_desired {
        flags = flags + 0x100;
    }
    if recursion_available {
        flags = flags + 0x80;
    }
    flags
}

/// Encodes the response to a query.
pub fn encode_response(query: &DnsQuery, answer: &DnsAnswer) -> (r: Result<Vec<u8>, NameError>)
    ensures
        match wire_response(
            query.id,
            query.recursion_desired,
            query.name@,
            query.qtype,
            query.qclass,
            answer@,
        ) {
            Ok(bytes) => r is Ok && r->Ok_0@ == bytes,
            Err(error) => r == Err::<Vec<u8>, NameError>(error),
        },
{
    if answer.records.len() > 65535 {
        return Err(NameError::TooManyRecords);
    }
    let flags: u16 = flags_word(
        query.recursion_desired,
        answer.authoritative,
        answer.recursion_available,
        answer.rcode,
    );
    let question = match encode_name(query.name.as_str()) {
        Ok(name) => name,
        Err(error) => {
            return Err(error);
        },
    };
    let records = match encode_records(&answer.records) {
        Ok(bytes) => bytes,
        Err(error) => {
            return Err(error);
        },
    };
    let mut out: Vec<u8> = Vec::new();
    push_be16(&mut out, query.id);
    assert(out@ =~= be16_bytes(query.id as int));
    push_be16(&mut out, flags);
    push_be16(&mut out, 1);
    push_be16(&mut out, answer.records.len() as u16);
    push_be16(&mut out, 0);
    push_be16(&mut out, 0);
    push_bytes(&mut out, &question);
    push_be16(&mut out, query.qtype);
    push_be16(&mut out, query.qclass);
    push_bytes(&mut out, &records);
    Ok(out)
}

/// A response carries the number of its query and is never empty.
pub proof fn responses_echo_the_query(
    id: u16,
    recursion_desired: bool,
    name: Seq<char>,
    qtype: u16,
    qclass: u16,
    answer: AnswerView,
)
    requires
        wire_response(id, recursion_desired, name, qtype, qclass, answer) is Ok,
    ensures
        ({
            let bytes = wire_response(id, recursion_desired, name, qtype, qclass, answer)->Ok_0;
            &&& bytes.len() >= 17
            &&& crate::query::be16(bytes, 0) == id
            &&& bytes[2] >= 128
        }),
{
    let flags = response_flags(
        recursion_desired,
        answer.authoritative,
        answer.recursion_available,
        answer.rcode,
    );
    let bytes = wire_response(id, recursion_desired, name, qtype, qclass, answer)->Ok_0;
    let header = response_header(id, flags, answer.records.len());
    assert(bytes[0] == header[0] && bytes[1] == header[1] && bytes[2] == header[2]);
    assert(header[0] == (id / 256) as u8 && header[1] == (id % 256) as u8);
    assert(header[2] == (flags / 256) as u8);
}

/// A response tells the answer: the number of the query, that it is a response, what is known of its
/// authority and of recursion, the response code, one question and the number of records stand in
/// its header, and the question follows.
pub proof fn responses_carry_the_answer(
    id: u16,
    recursion_desired: bool,
    name: Seq<char>,
    qtype: u16,
    qclass: u16,
    answer: AnswerView,
)
    requires
        wire_response(id, recursion_desired, name, qtype, qclass, answer) is Ok,
    ensures
        ({
            let bytes = wire_response(id, recursion_desired, name, qtype, qclass, answer)->Ok_0;
            let asked = wire_name(name)->Ok_0;
            let end = 12 + asked.len() as int;
            &&& wire_name(name) is Ok
            &&& answer.records.len() <= 65535
            &&& bytes[0] * 256 + bytes[1] == id
            &&& bytes[2] == 128 + (if answer.authoritative {
                4int
            } else {
                0
            }) + (if recursion_desired {
                1int
            } else {
                0
            })
            &&& bytes[3] == (if answer.recursion_available {
                128int
            } else {
                0
            }) + answer.rcode % 16
            &&& bytes[4] == 0 && bytes[5] == 1
            &&& bytes[6] * 256 + bytes[7] == answer.records.len()
            &&& bytes[8] == 0 && bytes[9] == 0 && bytes[10] == 0 && bytes[11] == 0
            &&& bytes.subrange(12, end) == asked
            &&& bytes[end] * 256 + bytes[end + 1] == qtype
            &&& bytes[end + 2] * 256 + bytes[end + 3] == qclass
            &&& answer.records.len() == 0 ==> bytes.len() == end + 4
        }),
{
    let bytes = wire_response(id, recursion_desired, name, qtype, qclass, answer)->Ok_0;
    let asked = wire_name(name)->Ok_0;
    let end = 12 + asked.len() as int;
    assert(bytes.subrange(12, end) =~= asked);
    let flags = response_flags(
        recursion_desired,
        answer.authoritative,
        answer.recursion_available,
        answer.rcode,
    );
    assert(be16_bytes(flags)[0] == flags / 256);
}

/// One record more stands behind the others: its name, its type, its class, its time to live, the
/// length of its data and the data.
pub proof fn records_follow_each_other(
    id: u16,
    recursion_desired: bool,
    name: Seq<char>,
    qtype: u16,
    qclass: u16,
    answer: AnswerView,
    record: RecordView,
)
    requires
        wire_response(id, recursion_desired, name, qtype, qclass, answer) is Ok,
        wire_name(record.name) is Ok,
        record.rdata.len() <= 65535,
        answer.records.len() < 65535,
    ensures
        ({
            let more = AnswerView { records: answer.records.push(record), ..answer };
            let before = wire_response(id, recursion_desired, name, qtype, qclass, answer)->Ok_0;
            let after = wire_response(id, recursion_desired, name, qtype, qclass, more);
            let owner = wire_name(record.name)->Ok_0;
            let told = after->Ok_0.skip(before.len() as int);
            let n = owner.len() as int;
            &&& after is Ok
            &&& after->Ok_0.subrange(12, before.len() as int) == before.skip(12)
            &&& told.take(n) == owner
            &&& told[n] * 256 + told[n + 1] == record.rtype
            &&& told[n + 2] * 256 + told[n + 3] == record.rclass
            &&& told[n + 4] * 0x1000000 + told[n + 5] * 0x10000 + told[n + 6] * 0x100 + told[n + 7]
                == record.ttl
            &&& told[n + 8] * 256 + told[n + 9] == record.rdata.len()
            &&& told.skip(n + 10) == record.rdata
        }),
{
    let more = AnswerView { records: answer.records.push(record), ..answer };
    assert(more.records.drop_last() =~= answer.records);
    assert(more.records.last() == record);
    let before = wire_response(id, recursion_desired, name, qtype, qclass, answer)->Ok_0;
    let after = wire_response(id, recursion_desired, name, qtype, qclass, more)->Ok_0;
    let owner = wire_name(record.name)->Ok_0;
    let n = owner.len() as int;
    let bytes = wire_record(record)->Ok_0;
    assert(wire_records(more.records)->Ok_0 == wire_records(answer.records)->Ok_0 + bytes);
    assert(after.skip(before.len() as int) =~= bytes);
    assert(after.subrange(12, before.len() as int) =~= before.skip(12));
    assert(bytes.take(n) =~= owner);
    assert(bytes.skip(n + 10) =~= record.rdata);
    crate::dhcp::octets_are_in_network_order(record.ttl, crate::dhcp::octets(record.ttl));
    assert(bytes[n + 4] == crate::dhcp::octets(record.ttl)[0]);
    assert(bytes[n + 5] == crate::dhcp::octets(record.ttl)[1]);
    assert(bytes[n + 6] == crate::dhcp::octets(record.ttl)[2]);
    assert(bytes[n + 7] == crate::dhcp::octets(record.ttl)[3]);
    assert(bytes[n] == be16_bytes(record.rtype as int)[0]);
    assert(bytes[n + 1] == be16_bytes(record.rtype as int)[1]);
    assert(bytes[n + 2] == be16_bytes(record.rclass as int)[0]);
    assert(bytes[n + 3] == be16_bytes(record.rclass as int)[1]);
    assert(bytes[n + 8] == be16_bytes(record.rdata.len() as int)[0]);
    assert(bytes[n + 9] == be16_bytes(record.rdata.len() as int)[1]);
}

/// A label is written behind its length, up to 63 bytes, as long as the labels and their lengths
/// are 254 bytes together; a longer label or name is refused.
pub proof fn labels_stand_behind_their_lengths(labels: Seq<Seq<char>>, label: Seq<char>)
    ensures
        wire_labels(Seq::empty()) == Ok::<Seq<u8>, NameError>(Seq::empty()),
        wire_labels(labels) matches Ok(bytes) ==> {
            let written = encode_utf8(label);
            let more = wire_labels(labels.push(label));
            &&& written.len() > 63 ==> more == Err::<Seq<u8>, NameError>(NameError::LabelTooLong)
            &&& written.len() <= 63 && bytes.len() + 1 + written.len() > 254 ==> more == Err::<
                Seq<u8>,
                NameError,
            >(NameError::NameTooLong)
            &&& written.len() <= 63 && bytes.len() + 1 + written.len() <= 254 ==> more == Ok::<
                Seq<u8>,
                NameError,
            >(bytes + seq![written.len() as u8] + written)
        },
{
    assert(labels.push(label).drop_last() =~= labels);
    if wire_labels(labels) is Ok {
        let bytes = wire_labels(labels)->Ok_0;
        let written = encode_utf8(label);
        assert(bytes.push(written.len() as u8) + written =~= bytes + seq![written.len() as u8]
            + written);
    }
}

/// A name is written as its labels and an empty one; the dot of the root does not matter, and the
/// root itself is the empty label alone.
pub proof fn names_end_with_the_root(name: Seq<char>)
    requires
        name.len() > 0,
        name.last() != '.',
    ensures
        wire_name(Seq::empty()) == Ok::<Seq<u8>, NameError>(seq![0u8]),
        wire_name(seq!['.']) == Ok::<Seq<u8>, NameError>(seq![0u8]),
        wire_name(name.push('.')) == wire_name(name),
        wire_name(name) is Ok <==> wire_labels(split(name, '.')) is Ok,
        wire_labels(split(name, '.')) matches Ok(bytes) ==> wire_name(name) == Ok::<
            Seq<u8>,
            NameError,
        >(bytes + seq![0u8]),
{
    assert(name.push('.').drop_last() =~= name);
    if wire_labels(split(name, '.')) is Ok {
        let bytes = wire_labels(split(name, '.'))->Ok_0;
        assert(bytes.push(0) =~= bytes + seq![0u8]);
    }
}

/// The data of an alias is one whole name and nothing behind it, and one that DNS can carry.
pub proof fn aliases_are_whole_names(rdata: Seq<u8>)
    ensures
        alias_rdata(rdata) ==> name_end(rdata, 0) == Ok::<int, QueryParseError>(
            rdata.len() as int,
        ) && dns_name(normal(dotted(rdata))),
        name_end(rdata, 0) == Ok::<int, QueryParseError>(rdata.len() as int) && dns_name(
            normal(dotted(rdata)),
        ) ==> alias_rdata(rdata),
{
}

} // verus!
