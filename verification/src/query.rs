//! The question of a DNS query, read in place from its wire bytes.
use vstd::prelude::*;
use vstd::slice::slice_subrange;

use crate::dns::DnsQuery;
use crate::text::to_text;

verus! {

/// The longest query that is read.
pub const MAX_QUERY_BYTES: usize = 4096;

/// The longest name on the wire.
pub const MAX_NAME_BYTES: usize = 255;

/// Why a packet is no query.
#[derive(Clone, Copy, Debug, PartialEq, Eq, Structural)]
pub enum QueryParseError {
    /// The packet ends before the question does.
    Short,
    Oversized,
    /// A response, or another operation than a standard query.
    InvalidFlags,
    QuestionCount,
    /// A label with its high bits set.
    InvalidLabel,
    NameTooLong,
}

/// The name under which a failure is counted.
pub open spec fn parse_cause(error: QueryParseError) -> Seq<char> {
    match error {
        QueryParseError::Short => "query_wire_short"@,
        QueryParseError::Oversized => "query_oversized"@,
        QueryParseError::InvalidFlags => "query_invalid_flags"@,
        QueryParseError::QuestionCount => "query_question_count"@,
        QueryParseError::InvalidLabel => "query_invalid_label"@,
        QueryParseError::NameTooLong => "query_name_too_long"@,
    }
}

impl QueryParseError {
    /// The name under which the failure is counted.
    pub fn telemetry_cause(&self) -> (r: &'static str)
        ensures
            r@ == parse_cause(*self),
    {
        match self {
            QueryParseError::Short => "query_wire_short",
            QueryParseError::Oversized => "query_oversized",
            QueryParseError::InvalidFlags => "query_invalid_flags",
            QueryParseError::QuestionCount => "query_question_count",
            QueryParseError::InvalidLabel => "query_invalid_label",
            QueryParseError::NameTooLong => "query_name_too_long",
        }
    }
}

/// Two bytes in network order.
pub open spec fn be16(bytes: Seq<u8>, at: int) -> u16 {
    (bytes[at] * 256 + bytes[at + 1]) as u16
}

/// Reads two bytes in network order.
pub fn read_be16(bytes: &[u8], at: usize) -> (r: u16)
    requires
        at + 1 < bytes.len(),
    ensures
        r == be16(bytes@, at as int),
{
    (bytes[at] as u16) * 256 + bytes[at + 1] as u16
}

/// A standard query: neither the response bit nor an operation code is set.
pub open spec fn query_flags(packet: Seq<u8>) -> bool {
    packet.len() > 2 && packet[2] < 8
}

/// Whether the flags of a packet are those of a standard query.
pub fn valid_query_flags(packet: &[u8]) -> (r: bool)
    ensures
        r == query_flags(packet@),
{
    packet.len() > 2 && packet[2] < 8
}

/// The position behind the name that starts at `at`: labels of at most 63 bytes, each
/// behind its length, up to a length of zero.
pub open spec fn name_end(packet: Seq<u8>, at: int) -> Result<int, QueryParseError>
    decreases packet.len() - at,
{
    if at < 0 || at >= packet.len() {
        Err(QueryParseError::Short)
    } else if packet[at] == 0 {
        Ok(at + 1)
    } else if packet[at] > 63 {
        Err(QueryParseError::InvalidLabel)
    } else if at + 1 + packet[at] > packet.len() {
        Err(QueryParseError::Short)
    } else {
        name_end(packet, at + 1 + packet[at])
    }
}

pub(crate) fn find_name_end(packet: &[u8], start: usize) -> (r: Result<usize, QueryParseError>)
    ensures
        match name_end(packet@, start as int) {
            Ok(end) => r is Ok && r->Ok_0 == end && start < end <= packet.len(),
            Err(error) => r is Err && r->Err_0 == error,
        },
{
    let mut at: usize = start;
    loop
        invariant
            start <= at,
            name_end(packet@, at as int) == name_end(packet@, start as int),
        decreases packet.len() - at,
    {
        if at >= packet.len() {
            return Err(QueryParseError::Short);
        }
        let length: usize = packet[at] as usize;
        if length == 0 {
            return Ok(at + 1);
        }
        if length > 63 {
            return Err(QueryParseError::InvalidLabel);
        }
        if length >= packet.len() - at {
            return Err(QueryParseError::Short);
        }
        at = at + 1 + length;
    }
}

/// The labels that a wire name holds.
pub open spec fn labels(wire: Seq<u8>) -> Seq<Seq<u8>>
    decreases wire.len(),
{
    if wire.len() == 0 || wire[0] == 0 || 1 + wire[0] > wire.len() {
        Seq::empty()
    } else {
        seq![wire.subrange(1, 1 + wire[0])] + labels(wire.skip(1 + wire[0]))
    }
}

/// The character that stands for a byte of a label; bytes outside ASCII are replaced.
pub open spec fn label_char(byte: u8) -> char {
    if byte < 128 {
        byte as char
    } else {
        '\u{fffd}'
    }
}

pub open spec fn label_text(label: Seq<u8>) -> Seq<char> {
    Seq::new(label.len(), |i: int| label_char(label[i]))
}

/// Labels with a dot behind each.
pub open spec fn dotted_labels(list: Seq<Seq<u8>>) -> Seq<char>
    decreases list.len(),
{
    if list.len() == 0 {
        Seq::empty()
    } else {
        label_text(list[0]).push('.') + dotted_labels(list.skip(1))
    }
}

/// The text form of a wire name; the root is a single dot.
pub open spec fn dotted(wire: Seq<u8>) -> Seq<char> {
    if labels(wire).len() == 0 {
        seq!['.']
    } else {
        dotted_labels(labels(wire))
    }
}

/// A name inside a packet.
#[derive(Clone, Copy, Debug, PartialEq, Eq)]
pub struct NameView<'a> {
    pub wire: &'a [u8],
}

impl<'a> NameView<'a> {
    /// The name with a dot behind each label.
    pub fn to_dotted(&self) -> (r: String)
        ensures
            r@ == dotted(self.wire@),
    {
        let wire = self.wire;
        let mut out: Vec<char> = Vec::new();
        let mut at: usize = 0;
        assert(wire@.skip(0) =~= wire@);
        assert(out@ + dotted_labels(labels(wire@)) =~= dotted_labels(labels(wire@)));
        let ghost whole = dotted_labels(labels(wire@));
        while at < wire.len() && wire[at] != 0 && (wire[at] as usize) < wire.len() - at
            invariant
                at <= wire.len(),
                wire == self.wire,
                out@ + dotted_labels(labels(wire@.skip(at as int))) == whole,
                out@.len() > 0 ==> labels(wire@).len() > 0,
                at == 0 ==> out@.len() == 0,
                at > 0 ==> out@.len() > 0,
            decreases wire.len() - at,
        {
            let length: usize = wire[at] as usize;
            let ghost rest = wire@.skip(at as int);
            let ghost label = rest.subrange(1, 1 + rest[0]);
            let ghost before = out@;
            proof {
                assert(rest[0] == wire@[at as int]);
                assert(labels(rest) == seq![label] + labels(rest.skip(1 + rest[0])));
                assert(labels(rest).skip(1) =~= labels(rest.skip(1 + rest[0])));
                assert(labels(rest)[0] == label);
                assert(rest.skip(1 + rest[0]) =~= wire@.skip(at as int + 1 + length));
                assert(label =~= wire@.subrange(at as int + 1, at as int + 1 + length));
            }
            let mut i: usize = 0;
            while i < length
                invariant
                    i <= length,
                    length < wire.len() - at,
                    at < wire.len(),
                    label == wire@.subrange(at as int + 1, at as int + 1 + length),
                    out@ == before + label_text(label).take(i as int),
                decreases length - i,
            {
                let byte: u8 = wire[at + 1 + i];
                if byte < 128 {
                    out.push(byte as char);
                } else {
                    out.push('\u{fffd}');
                }
                i = i + 1;
                assert(label_text(label)[i as int - 1] == label_char(byte));
                assert(out@ =~= before + label_text(label).take(i as int));
            }
            assert(label_text(label).take(i as int) =~= label_text(label));
            out.push('.');
            assert(out@ =~= before + label_text(label).push('.'));
            assert(out@ + dotted_labels(labels(wire@.skip(at as int + 1 + length))) =~= whole);
            at = at + 1 + length;
        }
        let ghost rest = wire@.skip(at as int);
        assert(labels(rest).len() == 0) by {
            if rest.len() > 0 {
                assert(rest[0] == wire@[at as int]);
            }
        }
        assert(out@ =~= whole);
        if out.len() == 0 {
            assert(at == 0);
            assert(rest =~= wire@);
            out.push('.');
            assert(out@ =~= seq!['.']);
        }
        to_text(&out)
    }
}

/// A query, read in place.
#[derive(Clone, Copy, Debug, PartialEq, Eq)]
pub struct QueryView<'a> {
    pub id: u16,
    pub recursion_desired: bool,
    pub name: NameView<'a>,
    pub qtype: u16,
    pub qclass: u16,
}

/// The value of a query.
pub struct QuestionView {
    pub id: u16,
    pub recursion_desired: bool,
    pub wire: Seq<u8>,
    pub qtype: u16,
    pub qclass: u16,
}

impl<'a> View for QueryView<'a> {
    type V = QuestionView;

    open spec fn view(&self) -> QuestionView {
        QuestionView {
            id: self.id,
            recursion_desired: self.recursion_desired,
            wire: self.name.wire@,
            qtype: self.qtype,
            qclass: self.qclass,
        }
    }
}

/// The query that a packet holds. The header comes first, the one question behind it; what
/// follows the question is not read.
pub open spec fn question(packet: Seq<u8>) -> Result<QuestionView, QueryParseError> {
    if packet.len() < 12 {
        Err(QueryParseError::Short)
    } else if packet.len() > MAX_QUERY_BYTES {
        Err(QueryParseError::Oversized)
    } else if !query_flags(packet) {
        Err(QueryParseError::InvalidFlags)
    } else if be16(packet, 4) != 1 {
        Err(QueryParseError::QuestionCount)
    } else {
        match name_end(packet, 12) {
            Err(error) => Err(error),
            Ok(end) => if end - 12 > MAX_NAME_BYTES {
                Err(QueryParseError::NameTooLong)
            } else if end + 4 > packet.len() {
                Err(QueryParseError::Short)
            } else {
                Ok(
                    QuestionView {
                        id: be16(packet, 0),
                        recursion_desired: packet[2] % 2 == 1,
                        wire: packet.subrange(12, end),
                        qtype: be16(packet, end),
                        qclass: be16(packet, end + 2),
                    },
                )
            },
        }
    }
}

impl<'a> QueryView<'a> {
    /// Reads the question of a query packet.
    pub fn parse(packet: &'a [u8]) -> (r: Result<QueryView<'a>, QueryParseError>)
        ensures
            match question(packet@) {
                Ok(value) => r is Ok && r->Ok_0@ == value,
                Err(error) => r is Err && r->Err_0 == error,
            },
    {
        if packet.len() < 12 {
            return Err(QueryParseError::Short);
        }
        if packet.len() > MAX_QUERY_BYTES {
            return Err(QueryParseError::Oversized);
        }
        if !valid_query_flags(packet) {
            return Err(QueryParseError::InvalidFlags);
        }
        if read_be16(packet, 4) != 1 {
            return Err(QueryParseError::QuestionCount);
        }
        let end: usize = match find_name_end(packet, 12) {
            Ok(end) => end,
            Err(error) => {
                return Err(error);
            },
        };
        if end - 12 > MAX_NAME_BYTES {
            return Err(QueryParseError::NameTooLong);
        }
        if end + 4 > packet.len() {
            return Err(QueryParseError::Short);
        }
        Ok(
            QueryView {
                id: read_be16(packet, 0),
                recursion_desired: packet[2] % 2 == 1,
                name: NameView { wire: slice_subrange(packet, 12, end) },
                qtype: read_be16(packet, end),
                qclass: read_be16(packet, end + 2),
            },
        )
    }

    /// The query with its name in text form.
    pub fn to_owned(&self) -> (r: DnsQuery)
        ensures
            r.id == self.id,
            r.recursion_desired == self.recursion_desired,
            r.name@ == dotted(self.name.wire@),
            r.qtype == self.qtype,
            r.qclass == self.qclass,
    {
        DnsQuery {
            id: self.id,
            recursion_desired: self.recursion_desired,
            name: self.name.to_dotted(),
            qtype: self.qtype,
            qclass: self.qclass,
        }
    }
}

// ---- laws ----------------------------------------------------------------------------

/// A name on the wire is cut label by label: the length, so many bytes, and the rest; a length of
/// zero ends it. Its end lies behind the zero.
pub proof fn names_are_cut_label_by_label(label: Seq<u8>, rest: Seq<u8>)
    requires
        1 <= label.len() <= 63,
    ensures
        ({
            let wire = seq![label.len() as u8] + label + rest;
            &&& labels(wire) == seq![label] + labels(rest)
            &&& labels(seq![0u8]) == Seq::<Seq<u8>>::empty()
            &&& dotted_labels(labels(wire)) == label_text(label).push('.') + dotted_labels(
                labels(rest),
            )
            &&& name_end(seq![0u8] + rest, 0) == Ok::<int, QueryParseError>(1)
            &&& name_end(wire, 0) == name_end(wire, label.len() as int + 1)
        }),
{
    let wire = seq![label.len() as u8] + label + rest;
    assert(wire[0] == label.len());
    assert(wire.subrange(1, 1 + wire[0]) =~= label);
    assert(wire.skip(1 + wire[0]) =~= rest);
    let all = labels(wire);
    assert(all[0] == label);
    assert(all.skip(1) =~= labels(rest));
}

/// A byte of a label stands for its ASCII character.
pub proof fn labels_are_ascii(label: Seq<u8>, i: int)
    requires
        0 <= i < label.len(),
    ensures
        label_text(label).len() == label.len(),
        label[i] < 128 ==> label_text(label)[i] as u32 == label[i],
{
}

proof fn names_end_with_a_zero(packet: Seq<u8>, at: int)
    requires
        name_end(packet, at) is Ok,
        0 <= at,
    ensures
        at < name_end(packet, at)->Ok_0 <= packet.len(),
        packet[name_end(packet, at)->Ok_0 - 1] == 0,
    decreases packet.len() - at,
{
    if packet[at] != 0 {
        names_end_with_a_zero(packet, at + 1 + packet[at]);
    }
}

/// A packet that is read as a query has 12 to 4096 bytes, is neither a response nor another
/// operation, and asks one question: the number, the wish for recursion, the name, which takes at
/// most 255 bytes and ends with a zero, the type and the class stand in it in this order.
pub proof fn queries_are_read_in_order(packet: Seq<u8>)
    requires
        question(packet) is Ok,
    ensures
        ({
            let read = question(packet)->Ok_0;
            let end = 12 + read.wire.len() as int;
            &&& 12 <= packet.len() <= 4096
            &&& packet[2] < 8
            &&& packet[4] == 0 && packet[5] == 1
            &&& read.id == packet[0] * 256 + packet[1]
            &&& read.recursion_desired <==> packet[2] % 2 == 1
            &&& 1 <= read.wire.len() <= 255
            &&& end + 4 <= packet.len()
            &&& read.wire == packet.subrange(12, end)
            &&& read.wire.last() == 0
            &&& read.qtype == packet[end] * 256 + packet[end + 1]
            &&& read.qclass == packet[end + 2] * 256 + packet[end + 3]
        }),
{
    names_end_with_a_zero(packet, 12);
    assert(be16(packet, 4) == 1);
}

/// A packet is refused for the first thing that is wrong with it: too few bytes for a header, too
/// many at all, the flags, and the number of questions.
pub proof fn headers_are_checked_first(packet: Seq<u8>)
    ensures
        packet.len() < 12 ==> question(packet) == Err::<QuestionView, QueryParseError>(
            QueryParseError::Short,
        ),
        packet.len() > 4096 ==> question(packet) == Err::<QuestionView, QueryParseError>(
            QueryParseError::Oversized,
        ),
        12 <= packet.len() <= 4096 && packet[2] >= 8 ==> question(packet) == Err::<
            QuestionView,
            QueryParseError,
        >(QueryParseError::InvalidFlags),
        12 <= packet.len() <= 4096 && packet[2] < 8 && packet[4] * 256 + packet[5] != 1 ==> question(
            packet,
        ) == Err::<QuestionView, QueryParseError>(QueryParseError::QuestionCount),
        12 < packet.len() <= 4096 && packet[2] < 8 && packet[4] * 256 + packet[5] == 1 && packet[12]
            > 63 ==> question(packet) == Err::<QuestionView, QueryParseError>(
            QueryParseError::InvalidLabel,
        ),
{
}

/// A query with a name of up to 255 bytes and its type and class behind it is read; a longer name is
/// refused, and so is a packet that ends before them.
pub proof fn whole_queries_are_read(packet: Seq<u8>, end: int)
    requires
        12 <= packet.len() <= 4096,
        packet[2] < 8,
        packet[4] == 0,
        packet[5] == 1,
        name_end(packet, 12) == Ok::<int, QueryParseError>(end),
    ensures
        end - 12 > 255 ==> question(packet) == Err::<QuestionView, QueryParseError>(
            QueryParseError::NameTooLong,
        ),
        end - 12 <= 255 && end + 4 > packet.len() ==> question(packet) == Err::<
            QuestionView,
            QueryParseError,
        >(QueryParseError::Short),
        end - 12 <= 255 && end + 4 <= packet.len() ==> question(packet) is Ok,
{
    assert(be16(packet, 4) == 1);
}

} // verus!
