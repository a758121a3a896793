//! Bounded DHCPv4: reading requests, leasing addresses and writing replies.
use vstd::prelude::*;
use vstd::string::*;
use vstd::utf8::encode_utf8;

use crate::config::DhcpConfig;
use crate::net::{ipv4, parse_ipv4, socket, IpAddr, SocketAddr};
use crate::policy::{ErrorView, PolicyError};
use crate::text::{joined, texts, to_chars};

verus! {

/// The longest packet that is read or written.
pub const MAX_DHCP_PACKET: usize = 1500;

/// The client port that broadcast replies are sent to.
pub const CLIENT_PORT: u16 = 68;

#[derive(Clone, Copy, Debug, PartialEq, Eq, Structural)]
pub enum MessageType {
    Discover,
    Offer,
    Request,
    Decline,
    Ack,
    Nak,
    Release,
    Inform,
}

/// The number of a message type on the wire.
pub open spec fn type_code(kind: MessageType) -> u8 {
    match kind {
        MessageType::Discover => 1,
        MessageType::Offer => 2,
        MessageType::Request => 3,
        MessageType::Decline => 4,
        MessageType::Ack => 5,
        MessageType::Nak => 6,
        MessageType::Release => 7,
        MessageType::Inform => 8,
    }
}

/// The message type with the given number.
pub open spec fn type_of(code: u8) -> Option<MessageType> {
    match code {
        1u8 => Some(MessageType::Discover),
        2u8 => Some(MessageType::Offer),
        3u8 => Some(MessageType::Request),
        4u8 => Some(MessageType::Decline),
        5u8 => Some(MessageType::Ack),
        6u8 => Some(MessageType::Nak),
        7u8 => Some(MessageType::Release),
        8u8 => Some(MessageType::Inform),
        _ => None,
    }
}

/// The number of a message type names that type and no other.
pub proof fn type_codes_round_trip(kind: MessageType, code: u8)
    ensures
        type_of(type_code(kind)) == Some(kind),
        type_of(code) == Some(kind) ==> type_code(kind) == code,
{
}

impl MessageType {
    pub fn from_wire(value: u8) -> (r: Option<MessageType>)
        ensures
            r == type_of(value),
    {
        match value {
            1 => Some(MessageType::Discover),
            2 => Some(MessageType::Offer),
            3 => Some(MessageType::Request),
            4 => Some(MessageType::Decline),
            5 => Some(MessageType::Ack),
            6 => Some(MessageType::Nak),
            7 => Some(MessageType::Release),
            8 => Some(MessageType::Inform),
            _ => None,
        }
    }

    pub fn code(self) -> (r: u8)
        ensures
            r == type_code(self),
    {
        match self {
            MessageType::Discover => 1,
            MessageType::Offer => 2,
            MessageType::Request => 3,
            MessageType::Decline => 4,
            MessageType::Ack => 5,
            MessageType::Nak => 6,
            MessageType::Release => 7,
            MessageType::Inform => 8,
        }
    }
}

/// A request of a client. IPv4 addresses are the numbers that their octets spell.
#[derive(Clone, Copy, Debug, PartialEq, Eq)]
pub struct Request<'packet> {
    pub transaction_id: u32,
    pub client: [u8; 6],
    pub message_type: MessageType,
    pub requested_ip: Option<u32>,
    pub server_identifier: Option<u32>,
    pub broadcast: bool,
    pub packet: &'packet [u8],
}

#[derive(Clone, Copy, Debug, PartialEq, Eq, Structural)]
pub enum ParseError {
    TooShort,
    InvalidOperation,
    InvalidHardwareAddress,
    InvalidCookie,
    MissingMessageType,
    InvalidOption,
    UnsupportedMessageType,
}

/// Four bytes in network order.
pub open spec fn be32(bytes: Seq<u8>, at: int) -> u32 {
    (bytes[at] * 0x1000000 + bytes[at + 1] * 0x10000 + bytes[at + 2] * 0x100 + bytes[at + 3]) as u32
}

fn read_be32(bytes: &[u8], at: usize) -> (r: u32)
    requires
        at + 3 < bytes.len(),
    ensures
        r == be32(bytes@, at as int),
{
    (bytes[at] as u32) * 0x1000000 + (bytes[at + 1] as u32) * 0x10000 + (bytes[at + 2] as u32)
        * 0x100 + bytes[at + 3] as u32
}

/// The octets of a number in network order.
pub open spec fn octets(value: u32) -> Seq<u8> {
    seq![
        (value / 0x1000000) as u8,
        (value / 0x10000 % 0x100) as u8,
        (value / 0x100 % 0x100) as u8,
        (value % 0x100) as u8,
    ]
}

/// Writing a number in network order and reading it gives the number.
pub proof fn octets_round_trip(value: u32)
    ensures
        be32(octets(value), 0) == value,
{
}

/// What the options of a packet have said so far.
pub struct Options {
    pub message_type: Option<MessageType>,
    pub unsupported: bool,
    pub requested_ip: Option<u32>,
    pub server_identifier: Option<u32>,
}

pub open spec fn no_options() -> Options {
    Options {
        message_type: None,
        unsupported: false,
        requested_ip: None,
        server_identifier: None,
    }
}

/// What one option adds: the message type, the requested address and the server's address
/// count where they have their length; a later one replaces an earlier one.
pub open spec fn with_option(seen: Options, kind: u8, value: Seq<u8>) -> Options {
    if kind == 53 && value.len() == 1 {
        Options {
            message_type: type_of(value[0]),
            unsupported: type_of(value[0]) is None,
            ..seen
        }
    } else if kind == 50 && value.len() == 4 {
        Options { requested_ip: Some(be32(value, 0)), ..seen }
    } else if kind == 54 && value.len() == 4 {
        Options { server_identifier: Some(be32(value, 0)), ..seen }
    } else {
        seen
    }
}

/// Walks the options from `at`: a kind, a length and that many bytes each, but for padding
/// of one byte and the end mark.
pub open spec fn options(packet: Seq<u8>, at: int, seen: Options) -> Result<Options, ParseError>
    decreases packet.len() - at,
{
    if at < 0 || at >= packet.len() || packet[at] == 255 {
        Ok(seen)
    } else if packet[at] == 0 {
        options(packet, at + 1, seen)
    } else if at + 1 >= packet.len() || at + 2 + packet[at + 1] > packet.len() {
        Err(ParseError::InvalidOption)
    } else {
        options(
            packet,
            at + 2 + packet[at + 1],
            with_option(seen, packet[at], packet.subrange(at + 2, at + 2 + packet[at + 1])),
        )
    }
}

/// The value of a request.
pub struct RequestView {
    pub transaction_id: u32,
    pub client: Seq<u8>,
    pub message_type: MessageType,
    pub requested_ip: Option<u32>,
    pub server_identifier: Option<u32>,
    pub broadcast: bool,
}

impl<'packet> View for Request<'packet> {
    type V = RequestView;

    open spec fn view(&self) -> RequestView {
        RequestView {
            transaction_id: self.transaction_id,
            client: self.client@,
            message_type: self.message_type,
            requested_ip: self.requested_ip,
            server_identifier: self.server_identifier,
            broadcast: self.broadcast,
        }
    }
}

pub open spec fn cookie() -> Seq<u8> {
    seq![99u8, 130u8, 83u8, 99u8]
}

/// The request that a packet holds.
pub open spec fn request_of(packet: Seq<u8>) -> Result<RequestView, ParseError> {
    if packet.len() > MAX_DHCP_PACKET || packet.len() < 240 {
        Err(ParseError::TooShort)
    } else if packet[0] != 1 || packet[1] != 1 || packet[2] != 6 {
        Err(ParseError::InvalidOperation)
    } else if packet[3] != 0 {
        Err(ParseError::InvalidHardwareAddress)
    } else if packet.subrange(236, 240) != cookie() {
        Err(ParseError::InvalidCookie)
    } else {
        match options(packet, 240, no_options()) {
            Err(error) => Err(error),
            Ok(seen) => if seen.unsupported {
                Err(ParseError::UnsupportedMessageType)
            } else if seen.message_type is None {
                Err(ParseError::MissingMessageType)
            } else {
                Ok(
                    RequestView {
                        transaction_id: be32(packet, 4),
                        client: packet.subrange(28, 34),
                        message_type: seen.message_type->0,
                        requested_ip: seen.requested_ip,
                        server_identifier: seen.server_identifier,
                        broadcast: packet[10] >= 128,
                    },
                )
            },
        }
    }
}

impl<'packet> Request<'packet> {
    /// Reads a request.
    #[verifier::loop_isolation(false)]
    pub fn parse(packet: &'packet [u8]) -> (r: Result<Request<'packet>, ParseError>)
        ensures
            match request_of(packet@) {
                Ok(value) => r is Ok && r->Ok_0@ == value && r->Ok_0.packet == packet,
                Err(error) => r is Err && r->Err_0 == error,
            },
    {
        if packet.len() > MAX_DHCP_PACKET || packet.len() < 240 {
            return Err(ParseError::TooShort);
        }
        if packet[0] != 1 || packet[1] != 1 || packet[2] != 6 {
            return Err(ParseError::InvalidOperation);
        }
        if packet[3] != 0 {
            return Err(ParseError::InvalidHardwareAddress);
        }
        let found = packet[236] == 99 && packet[237] == 130 && packet[238] == 83 && packet[239]
            == 99;
        assert(found == (packet@.subrange(236, 240) == cookie())) by {
            let mark = packet@.subrange(236, 240);
            assert(mark[0] == packet@[236] && mark[1] == packet@[237] && mark[2] == packet@[238]
                && mark[3] == packet@[239]);
            if found {
                assert(mark =~= cookie());
            }
        }
        if !found {
            return Err(ParseError::InvalidCookie);
        }
        let mut message_type: Option<MessageType> = None;
        let mut requested_ip: Option<u32> = None;
        let mut server_identifier: Option<u32> = None;
        let mut unsupported: bool = false;
        let mut cursor: usize = 240;
        while cursor < packet.len() && packet[cursor] != 255
            invariant
                packet.len() <= MAX_DHCP_PACKET,
                240 <= cursor <= packet.len(),
                options(packet@, 240, no_options()) == options(
                    packet@,
                    cursor as int,
                    (Options { message_type, unsupported, requested_ip, server_identifier }),
                ),
            decreases packet.len() - cursor,
        {
            let kind: u8 = packet[cursor];
            if kind == 0 {
                cursor = cursor + 1;
                continue;
            }
            if cursor + 1 >= packet.len() {
                return Err(ParseError::InvalidOption);
            }
            let length: usize = packet[cursor + 1] as usize;
            let start: usize = cursor + 2;
            if length > packet.len() - start {
                return Err(ParseError::InvalidOption);
            }
            let ghost value = packet@.subrange(start as int, start + length);
            if kind == 53 && length == 1 {
                assert(value[0] == packet@[start as int]);
                message_type = MessageType::from_wire(packet[start]);
                unsupported = message_type.is_none();
            } else if kind == 50 && length == 4 {
                assert(be32(value, 0) == be32(packet@, start as int));
                requested_ip = Some(read_be32(packet, start));
            } else if kind == 54 && length == 4 {
                assert(be32(value, 0) == be32(packet@, start as int));
                server_identifier = Some(read_be32(packet, start));
            }
            cursor = start + length;
        }
        if unsupported {
            return Err(ParseError::UnsupportedMessageType);
        }
        match message_type {
            None => Err(ParseError::MissingMessageType),
            Some(kind) => {
                let client = [packet[28], packet[29], packet[30], packet[31], packet[32], packet[33]];
                assert(client@ =~= packet@.subrange(28, 34));
                Ok(
                    Request {
                        transaction_id: read_be32(packet, 4),
                        client,
                        message_type: kind,
                        requested_ip,
                        server_identifier,
                        broadcast: packet[10] >= 128,
                        packet,
                    },
                )
            },
        }
    }

    /// The length of the packet that the request was read from.
    #[must_use]
    pub fn packet_len(&self) -> (r: usize)
        ensures
            r == self.packet@.len(),
    {
        self.packet.len()
    }
}

// ---- replies -------------------------------------------------------------------------

#[derive(Clone, Copy, Debug, PartialEq, Eq)]
pub struct ReplyConfig<'domain> {
    pub server: u32,
    pub subnet_mask: u32,
    pub router: Option<u32>,
    pub dns: Option<u32>,
    pub dns_servers: &'domain [u32],
    pub domain_name: Option<&'domain str>,
    pub lease_secs: u32,
}

#[derive(Clone, Copy, Debug, PartialEq, Eq, Structural)]
pub enum EncodeError {
    OutputTooSmall,
    InvalidLease,
}

/// The value of a reply configuration.
pub struct ReplyView {
    pub server: u32,
    pub subnet_mask: u32,
    pub router: Option<u32>,
    pub dns: Option<u32>,
    pub dns_servers: Seq<u32>,
    pub domain_name: Option<Seq<u8>>,
    pub lease_secs: u32,
}

impl<'domain> View for ReplyConfig<'domain> {
    type V = ReplyView;

    open spec fn view(&self) -> ReplyView {
        ReplyView {
            server: self.server,
            subnet_mask: self.subnet_mask,
            router: self.router,
            dns: self.dns,
            dns_servers: self.dns_servers@,
            domain_name: match self.domain_name {
                Some(name) => Some(encode_utf8(name@)),
                None => None,
            },
            lease_secs: self.lease_secs,
        }
    }
}

/// One option: kind, length, value. The length byte is the low byte of the length.
pub open spec fn option_bytes(kind: u8, value: Seq<u8>) -> Seq<u8> {
    seq![kind, (value.len() % 256) as u8] + value
}

/// The name servers that a reply lists: the first one of its own, then up to four more.
pub open spec fn listed_servers(config: ReplyView) -> Seq<u32> {
    let more = if config.dns_servers.len() > 4 {
        config.dns_servers.take(4)
    } else {
        config.dns_servers
    };
    match config.dns {
        Some(first) => seq![first] + more,
        None => more,
    }
}

pub open spec fn all_octets(list: Seq<u32>) -> Seq<u8>
    decreases list.len(),
{
    if list.len() == 0 {
        Seq::empty()
    } else {
        all_octets(list.drop_last()) + octets(list.last())
    }
}

pub open spec fn zeros(n: nat) -> Seq<u8> {
    Seq::new(n, |i: int| 0u8)
}

/// The fixed part of a reply, up to and with the cookie.
pub open spec fn reply_header(request: RequestView, address: u32, config: ReplyView) -> Seq<u8> {
    seq![2u8, 1u8, 6u8, 0u8] + octets(request.transaction_id) + zeros(2) + seq![
        if request.broadcast {
            128u8
        } else {
            0u8
        },
        0u8,
    ] + zeros(4) + octets(address) + octets(config.server) + zeros(4) + request.client + zeros(202)
        + cookie()
}

/// The options of a reply, in the order in which they are written.
pub open spec fn reply_options(kind: MessageType, config: ReplyView) -> Seq<u8> {
    option_bytes(53, seq![type_code(kind)]) + option_bytes(1, octets(config.subnet_mask)) + (
    match config.router {
        Some(router) => option_bytes(3, octets(router)),
        None => Seq::empty(),
    }) + (if listed_servers(config).len() > 0 {
        option_bytes(6, all_octets(listed_servers(config)))
    } else {
        Seq::empty()
    }) + (match config.domain_name {
        Some(name) => option_bytes(15, name),
        None => Seq::empty(),
    }) + option_bytes(51, octets(config.lease_secs)) + seq![255u8]
}

/// A whole reply.
pub open spec fn reply_bytes(
    request: RequestView,
    kind: MessageType,
    address: u32,
    config: ReplyView,
) -> Seq<u8> {
    reply_header(request, address, config) + reply_options(kind, config)
}

fn push_bytes(out: &mut Vec<u8>, bytes: &[u8])
    ensures
        final(out)@ == old(out)@ + bytes@,
{
    let ghost start = out@;
    let mut i: usize = 0;
    assert(start + bytes@.take(0) =~= start);
    while i < bytes.len()
        invariant
            i <= bytes.len(),
            out@ == start + bytes@.take(i as int),
        decreases bytes.len() - i,
    {
        out.push(bytes[i]);
        i = i + 1;
        assert(out@ =~= start + bytes@.take(i as int));
    }
    assert(bytes@.take(i as int) =~= bytes@);
}

fn push_zeros(out: &mut Vec<u8>, n: usize)
    ensures
        final(out)@ == old(out)@ + zeros(n as nat),
{
    let ghost start = out@;
    let mut i: usize = 0;
    assert(start + zeros(0) =~= start);
    while i < n
        invariant
            i <= n,
            out@ == start + zeros(i as nat),
        decreases n - i,
    {
        out.push(0);
        i = i + 1;
        assert(out@ =~= start + zeros(i as nat));
    }
}

fn push_octets(out: &mut Vec<u8>, value: u32)
    ensures
        final(out)@ == old(out)@ + octets(value),
{
    let ghost start = out@;
    out.push((value / 0x1000000) as u8);
    out.push((value / 0x10000 % 0x100) as u8);
    out.push((value / 0x100 % 0x100) as u8);
    out.push((value % 0x100) as u8);
    assert(out@ =~= start + octets(value));
}

fn push_option(out: &mut Vec<u8>, kind: u8, value: &[u8])
    ensures
        final(out)@ == old(out)@ + option_bytes(kind, value@),
{
    let ghost start = out@;
    out.push(kind);
    out.push((value.len() % 256) as u8);
    push_bytes(out, value);
    assert(out@ =~= start + option_bytes(kind, value@));
}

proof fn all_octets_len(list: Seq<u32>)
    ensures
        all_octets(list).len() == 4 * list.len(),
    decreases list.len(),
{
    if list.len() > 0 {
        all_octets_len(list.drop_last());
    }
}

/// The bytes that a reply takes.
pub open spec fn reply_len(config: ReplyView) -> int {
    256 + (if config.router is Some {
        6int
    } else {
        0
    }) + (if listed_servers(config).len() > 0 {
        2 + 4 * listed_servers(config).len()
    } else {
        0
    }) + (match config.domain_name {
        Some(name) => 2 + name.len(),
        None => 0,
    })
}

/// The length of a reply follows from its configuration alone.
pub proof fn reply_has_its_length(
    request: RequestView,
    kind: MessageType,
    address: u32,
    config: ReplyView,
)
    requires
        request.client.len() == 6,
    ensures
        reply_bytes(request, kind, address, config).len() == reply_len(config),
        reply_header(request, address, config).len() == 240,
{
    all_octets_len(listed_servers(config));
}

/// The name servers of a reply as a list.
fn collect_servers(config: &ReplyConfig<'_>) -> (r: Vec<u32>)
    ensures
        r@ == listed_servers(config@),
        r.len() <= 5,
{
    let mut out: Vec<u32> = Vec::new();
    match config.dns {
        Some(first) => {
            out.push(first);
        },
        None => {},
    }
    let ghost start = out@;
    let count: usize = if config.dns_servers.len() > 4 {
        4
    } else {
        config.dns_servers.len()
    };
    let mut i: usize = 0;
    assert(start + config.dns_servers@.take(0) =~= start);
    while i < count
        invariant
            i <= count <= config.dns_servers.len(),
            count <= 4,
            start.len() <= 1,
            out@ == start + config.dns_servers@.take(i as int),
        decreases count - i,
    {
        out.push(config.dns_servers[i]);
        i = i + 1;
        assert(out@ =~= start + config.dns_servers@.take(i as int));
    }
    assert(config.dns_servers@.len() <= 4 ==> config.dns_servers@.take(i as int)
        =~= config.dns_servers@);
    assert(out@ =~= listed_servers(config@));
    out
}

/// The fixed part of a reply.
fn build_header(request: &Request<'_>, address: u32, config: &ReplyConfig<'_>) -> (r: Vec<u8>)
    ensures
        r@ == reply_header(request@, address, config@),
{
    let ghost asked = request@;
    let mut out: Vec<u8> = Vec::new();
    out.push(2);
    out.push(1);
    out.push(6);
    out.push(0);
    assert(out@ =~= seq![2u8, 1u8, 6u8, 0u8]);
    push_octets(&mut out, request.transaction_id);
    push_zeros(&mut out, 2);
    let ghost before = out@;
    out.push(
        if request.broadcast {
            128
        } else {
            0
        },
    );
    out.push(0);
    assert(out@ =~= before + seq![
        if asked.broadcast {
            128u8
        } else {
            0u8
        },
        0u8,
    ]);
    push_zeros(&mut out, 4);
    push_octets(&mut out, address);
    push_octets(&mut out, config.server);
    push_zeros(&mut out, 4);
    push_bytes(&mut out, request.client.as_slice());
    push_zeros(&mut out, 202);
    let ghost before_cookie = out@;
    out.push(99);
    out.push(130);
    out.push(83);
    out.push(99);
    assert(out@ =~= before_cookie + cookie());
    out
}

/// The octets of a list of addresses.
fn collect_octets(list: &[u32]) -> (r: Vec<u8>)
    ensures
        r@ == all_octets(list@),
{
    let mut out: Vec<u8> = Vec::new();
    let mut i: usize = 0;
    assert(out@ =~= all_octets(list@.take(0)));
    while i < list.len()
        invariant
            i <= list.len(),
            out@ == all_octets(list@.take(i as int)),
        decreases list.len() - i,
    {
        assert(list@.take(i as int + 1).drop_last() =~= list@.take(i as int));
        push_octets(&mut out, list[i]);
        i = i + 1;
    }
    assert(list@.take(i as int) =~= list@);
    out
}

/// Appends an option that holds one number.
fn push_number_option(out: &mut Vec<u8>, kind: u8, value: u32)
    ensures
        final(out)@ == old(out)@ + option_bytes(kind, octets(value)),
{
    let mut bytes: Vec<u8> = Vec::new();
    push_octets(&mut bytes, value);
    assert(bytes@ =~= octets(value));
    push_option(out, kind, &bytes);
}

/// The options of a reply.
fn build_options(message_type: MessageType, config: &ReplyConfig<'_>) -> (r: Vec<u8>)
    ensures
        r@ == reply_options(message_type, config@),
{
    let ghost view = config@;
    let mut out: Vec<u8> = Vec::new();
    let mut kind: Vec<u8> = Vec::new();
    kind.push(message_type.code());
    assert(kind@ =~= seq![type_code(message_type)]);
    push_option(&mut out, 53, &kind);
    assert(out@ =~= option_bytes(53, seq![type_code(message_type)]));
    push_number_option(&mut out, 1, config.subnet_mask);
    match config.router {
        Some(router) => {
            push_number_option(&mut out, 3, router);
        },
        None => {
            assert(out@ =~= out@ + Seq::<u8>::empty());
        },
    }
    let servers = collect_servers(config);
    if servers.len() > 0 {
        let value = collect_octets(&servers);
        push_option(&mut out, 6, &value);
    } else {
        assert(out@ =~= out@ + Seq::<u8>::empty());
    }
    match config.domain_name {
        Some(name) => {
            push_option(&mut out, 15, name.as_bytes());
        },
        None => {
            assert(out@ =~= out@ + Seq::<u8>::empty());
        },
    }
    push_number_option(&mut out, 51, config.lease_secs);
    let ghost before = out@;
    out.push(255);
    assert(out@ =~= before + seq![255u8]);
    out
}

/// A whole reply.
fn build_reply(
    request: &Request<'_>,
    message_type: MessageType,
    address: u32,
    config: &ReplyConfig<'_>,
) -> (r: Vec<u8>)
    ensures
        r@ == reply_bytes(request@, message_type, address, config@),
{
    let mut out = build_header(request, address, config);
    let tail = build_options(message_type, config);
    push_bytes(&mut out, &tail);
    out
}

/// Writes a reply to the start of `output` and returns its length. The bytes behind it stay.
pub fn encode_reply(
    request: &Request<'_>,
    message_type: MessageType,
    address: u32,
    config: ReplyConfig<'_>,
    output: &mut [u8],
) -> (r: Result<usize, EncodeError>)
    ensures
        final(output)@.len() == old(output)@.len(),
        config.lease_secs == 0 ==> r == Err::<usize, EncodeError>(EncodeError::InvalidLease),
        config.lease_secs != 0 && (old(output)@.len() < reply_len(config@) || old(output)@.len()
            > MAX_DHCP_PACKET) ==> r == Err::<usize, EncodeError>(EncodeError::OutputTooSmall),
        config.lease_secs != 0 && reply_len(config@) <= old(output)@.len() <= MAX_DHCP_PACKET ==> {
            &&& r == Ok::<usize, EncodeError>(reply_len(config@) as usize)
            &&& final(output)@ == reply_bytes(request@, message_type, address, config@) + old(
                output,
            )@.skip(reply_len(config@))
        },
        r is Err ==> final(output)@ == old(output)@,
{
    if config.lease_secs == 0 {
        return Err(EncodeError::InvalidLease);
    }
    let reply = build_reply(request, message_type, address, &config);
    proof {
        reply_has_its_length(request@, message_type, address, config@);
    }
    if output.len() < reply.len() || output.len() > MAX_DHCP_PACKET {
        return Err(EncodeError::OutputTooSmall);
    }
    let ghost before = output@;
    let mut i: usize = 0;
    assert(output@ =~= reply@.take(0) + before.skip(0));
    while i < reply.len()
        invariant
            i <= reply.len() <= output.len(),
            before.len() == output@.len(),
            output@ == reply@.take(i as int) + before.skip(i as int),
        decreases reply.len() - i,
    {
        output[i] = reply[i];
        i = i + 1;
        assert(output@ =~= reply@.take(i as int) + before.skip(i as int));
    }
    assert(reply@.take(i as int) =~= reply@);
    Ok(reply.len())
}

// ---- replies read back ---------------------------------------------------------------

// What stands before an option does not count.
proof fn options_are_local(packet: Seq<u8>, n: int, at: int, seen: Options)
    requires
        0 <= n <= at,
        n <= packet.len(),
    ensures
        options(packet, at, seen) == options(packet.skip(n), at - n, seen),
    decreases packet.len() - at,
{
    let rest = packet.skip(n);
    if at < packet.len() && packet[at] != 255 {
        assert(rest[at - n] == packet[at]);
        if packet[at] == 0 {
            options_are_local(packet, n, at + 1, seen);
        } else if at + 1 < packet.len() && at + 2 + packet[at + 1] <= packet.len() {
            let end = at + 2 + packet[at + 1];
            assert(rest[at + 1 - n] == packet[at + 1]);
            assert(rest.subrange(at + 2 - n, end - n) =~= packet.subrange(at + 2, end));
            options_are_local(
                packet,
                n,
                end,
                with_option(seen, packet[at], packet.subrange(at + 2, end)),
            );
        }
    }
}

proof fn an_option_is_walked(kind: u8, value: Seq<u8>, rest: Seq<u8>, seen: Options)
    requires
        kind != 0,
        kind != 255,
        value.len() <= 255,
    ensures
        options(option_bytes(kind, value) + rest, 0, seen) == options(
            rest,
            0,
            with_option(seen, kind, value),
        ),
{
    let packet = option_bytes(kind, value) + rest;
    let end = (2 + value.len()) as int;
    assert(packet[0] == kind);
    assert(packet[1] == value.len());
    assert(packet.subrange(2, end) =~= value);
    assert(packet.skip(end) =~= rest);
    options_are_local(packet, end, end, with_option(seen, kind, value));
}

/// An option that may be left out.
spec fn some_option(kind: u8, value: Option<Seq<u8>>) -> Seq<u8> {
    match value {
        Some(bytes) => option_bytes(kind, bytes),
        None => Seq::empty(),
    }
}

proof fn an_option_is_passed_over(
    kind: u8,
    value: Option<Seq<u8>>,
    rest: Seq<u8>,
    seen: Options,
)
    requires
        kind != 0 && kind != 50 && kind != 53 && kind != 54 && kind != 255,
        value is Some ==> value->0.len() <= 255,
    ensures
        options(some_option(kind, value) + rest, 0, seen) == options(rest, 0, seen),
{
    match value {
        Some(bytes) => {
            an_option_is_walked(kind, bytes, rest, seen);
        },
        None => {
            assert(some_option(kind, value) + rest =~= rest);
        },
    }
}

// Pieces one after the other, however they are put together.
proof fn pieces_regroup(
    p0: Seq<u8>,
    p1: Seq<u8>,
    p2: Seq<u8>,
    p3: Seq<u8>,
    p4: Seq<u8>,
    p5: Seq<u8>,
    end: Seq<u8>,
)
    ensures
        p0 + p1 + p2 + p3 + p4 + p5 + end == p0 + (p1 + (p2 + (p3 + (p4 + (p5 + end))))),
{
    let r5 = p5 + end;
    assert(p0 + p1 + p2 + p3 + p4 + p5 + end =~= p0 + p1 + p2 + p3 + p4 + r5);
    let r4 = p4 + r5;
    assert(p0 + p1 + p2 + p3 + p4 + r5 =~= p0 + p1 + p2 + p3 + r4);
    let r3 = p3 + r4;
    assert(p0 + p1 + p2 + p3 + r4 =~= p0 + p1 + p2 + r3);
    let r2 = p2 + r3;
    assert(p0 + p1 + p2 + r3 =~= p0 + p1 + r2);
    assert(p0 + p1 + r2 =~= p0 + (p1 + r2));
}

proof fn reply_options_are_read_back(kind: MessageType, config: ReplyView)
    requires
        config.domain_name is Some ==> config.domain_name->0.len() <= 255,
    ensures
        options(reply_options(kind, config), 0, no_options()) == Ok::<Options, ParseError>(
            Options { message_type: Some(kind), ..no_options() },
        ),
{
    let code = seq![type_code(kind)];
    let seen = with_option(no_options(), 53, code);
    type_codes_round_trip(kind, type_code(kind));
    let servers = if listed_servers(config).len() > 0 {
        Some(all_octets(listed_servers(config)))
    } else {
        None
    };
    all_octets_len(listed_servers(config));
    let router = match config.router {
        Some(address) => Some(octets(address)),
        None => None,
    };
    let p0 = option_bytes(53, code);
    let p1 = some_option(1, Some(octets(config.subnet_mask)));
    let p2 = some_option(3, router);
    let p3 = some_option(6, servers);
    let p4 = some_option(15, config.domain_name);
    let p5 = some_option(51, Some(octets(config.lease_secs)));
    let end = seq![255u8];
    pieces_regroup(p0, p1, p2, p3, p4, p5, end);
    let r5 = p5 + end;
    let r4 = p4 + r5;
    let r3 = p3 + r4;
    let r2 = p2 + r3;
    let r1 = p1 + r2;
    assert(reply_options(kind, config) == p0 + r1);
    an_option_is_walked(53, code, r1, no_options());
    an_option_is_passed_over(1, Some(octets(config.subnet_mask)), r2, seen);
    an_option_is_passed_over(3, router, r3, seen);
    an_option_is_passed_over(6, servers, r4, seen);
    an_option_is_passed_over(15, config.domain_name, r5, seen);
    an_option_is_passed_over(51, Some(octets(config.lease_secs)), end, seen);
    assert(options(end, 0, seen) == Ok::<Options, ParseError>(seen));
}

/// A reply that is turned into a request is read back: the fields that it has from the request it
/// answers, and the kind of message that was written.
pub proof fn replies_are_read_back(
    request: RequestView,
    kind: MessageType,
    address: u32,
    config: ReplyView,
)
    requires
        request.client.len() == 6,
        reply_len(config) <= MAX_DHCP_PACKET,
        config.domain_name is Some ==> config.domain_name->0.len() <= 255,
    ensures
        request_of(reply_bytes(request, kind, address, config).update(0, 1)) == Ok::<
            RequestView,
            ParseError,
        >(
            RequestView {
                transaction_id: request.transaction_id,
                client: request.client,
                message_type: kind,
                requested_ip: None,
                server_identifier: None,
                broadcast: request.broadcast,
            },
        ),
{
    let header = reply_header(request, address, config);
    let turned = header.update(0, 1);
    let packet = reply_bytes(request, kind, address, config).update(0, 1);
    reply_has_its_length(request, kind, address, config);
    assert(packet =~= turned + reply_options(kind, config));
    reply_options_are_read_back(kind, config);
    assert(packet.skip(240) =~= reply_options(kind, config));
    options_are_local(packet, 240, 240, no_options());
    assert(packet.subrange(236, 240) =~= cookie());
    assert(packet.subrange(28, 34) =~= request.client);
    assert(packet.subrange(4, 8) =~= octets(request.transaction_id));
    octets_round_trip(request.transaction_id);
    assert(be32(packet, 4) == be32(packet.subrange(4, 8), 0));
}

// ---- leases --------------------------------------------------------------------------

/// One lease: who holds which address until when.
#[derive(Clone, Copy, Debug, PartialEq, Eq)]
pub struct Lease {
    pub client: [u8; 6],
    pub address: u32,
    pub expiry: u64,
}

/// The leases that are held, at most one for each client.
pub struct Leases {
    pub entries: Vec<Lease>,
}

/// The address and the expiry that each client holds.
pub open spec fn lease_map(entries: Seq<Lease>) -> Map<Seq<u8>, (u32, u64)>
    decreases entries.len(),
{
    if entries.len() == 0 {
        Map::empty()
    } else {
        lease_map(entries.drop_last()).insert(
            entries.last().client@,
            (entries.last().address, entries.last().expiry),
        )
    }
}

pub open spec fn one_lease_each(entries: Seq<Lease>) -> bool {
    forall|i: int, j: int|
        0 <= i < j < entries.len() ==> entries[i].client@ != entries[j].client@
}

impl View for Leases {
    type V = Map<Seq<u8>, (u32, u64)>;

    open spec fn view(&self) -> Map<Seq<u8>, (u32, u64)> {
        lease_map(self.entries@)
    }
}

/// The leases that have not run out.
pub open spec fn live(leases: Map<Seq<u8>, (u32, u64)>, now: u64) -> Map<Seq<u8>, (u32, u64)> {
    Map::new(|c: Seq<u8>| leases.contains_key(c) && leases[c].1 > now, |c: Seq<u8>| leases[c])
}

/// Whether some client holds the address.
pub open spec fn in_use(leases: Map<Seq<u8>, (u32, u64)>, address: u32) -> bool {
    exists|c: Seq<u8>| leases.contains_key(c) && (#[trigger] leases[c]).0 == address
}

/// No address is held by two clients.
pub open spec fn exclusive(leases: Map<Seq<u8>, (u32, u64)>) -> bool {
    forall|a: Seq<u8>, b: Seq<u8>|
        leases.contains_key(a) && leases.contains_key(b) && a != b ==> (#[trigger] leases[a]).0 != (
        #[trigger] leases[b]).0
}

/// Every held address lies in the range.
pub open spec fn within(leases: Map<Seq<u8>, (u32, u64)>, start: u32, end: u32) -> bool {
    forall|c: Seq<u8>| leases.contains_key(c) ==> start <= (#[trigger] leases[c]).0 <= end
}

proof fn lease_map_has(entries: Seq<Lease>, client: Seq<u8>)
    ensures
        lease_map(entries).contains_key(client) <==> exists|i: int|
            0 <= i < entries.len() && (#[trigger] entries[i]).client@ == client,
    decreases entries.len(),
{
    if entries.len() > 0 {
        let front = entries.drop_last();
        lease_map_has(front, client);
        if lease_map(front).contains_key(client) {
            let i = choose|i: int| 0 <= i < front.len() && (#[trigger] front[i]).client@ == client;
            assert(entries[i].client@ == client);
        }
        if exists|i: int| 0 <= i < entries.len() && (#[trigger] entries[i]).client@ == client {
            let i = choose|i: int|
                0 <= i < entries.len() && (#[trigger] entries[i]).client@ == client;
            if i < front.len() {
                assert(front[i].client@ == client);
            }
        }
        assert(entries[entries.len() - 1] == entries.last());
    }
}

proof fn lease_map_at(entries: Seq<Lease>, i: int)
    requires
        one_lease_each(entries),
        0 <= i < entries.len(),
    ensures
        lease_map(entries).contains_key(entries[i].client@),
        lease_map(entries)[entries[i].client@] == (entries[i].address, entries[i].expiry),
    decreases entries.len(),
{
    if i < entries.len() - 1 {
        let front = entries.drop_last();
        assert(front[i] == entries[i]);
        assert forall|a: int, b: int| 0 <= a < b < front.len() implies front[a].client@
            != front[b].client@ by {
            assert(entries[a].client@ != entries[b].client@);
        }
        lease_map_at(front, i);
        assert(entries[i].client@ != entries[entries.len() - 1].client@);
    }
}

proof fn lease_map_renewed(entries: Seq<Lease>, i: int, expiry: u64)
    requires
        one_lease_each(entries),
        0 <= i < entries.len(),
    ensures
        ({
            let renewed = Lease { expiry, ..entries[i] };
            lease_map(entries.update(i, renewed)) == lease_map(entries).insert(
                entries[i].client@,
                (entries[i].address, expiry),
            )
        }),
    decreases entries.len(),
{
    let renewed = Lease { expiry, ..entries[i] };
    let next = entries.update(i, renewed);
    let front = entries.drop_last();
    if i == entries.len() - 1 {
        assert(next.drop_last() =~= front);
        assert(lease_map(next) =~= lease_map(entries).insert(
            entries[i].client@,
            (entries[i].address, expiry),
        ));
    } else {
        assert(front[i] == entries[i]);
        assert forall|a: int, b: int| 0 <= a < b < front.len() implies front[a].client@
            != front[b].client@ by {
            assert(entries[a].client@ != entries[b].client@);
        }
        lease_map_renewed(front, i, expiry);
        assert(next.drop_last() =~= front.update(i, renewed));
        assert(entries[i].client@ != entries[entries.len() - 1].client@);
        assert(lease_map(next) =~= lease_map(entries).insert(
            entries[i].client@,
            (entries[i].address, expiry),
        ));
    }
}

/// Whether two hardware addresses are the same.
fn same_client(a: &[u8; 6], b: &[u8; 6]) -> (r: bool)
    ensures
        r == (a@ == b@),
{
    let mut i: usize = 0;
    while i < 6
        invariant
            i <= 6,
            forall|k: int| 0 <= k < i ==> a@[k] == b@[k],
        decreases 6 - i,
    {
        if a[i] != b[i] {
            return false;
        }
        i = i + 1;
    }
    assert(a@ =~= b@);
    true
}

impl Leases {
    pub open spec fn wf(&self) -> bool {
        one_lease_each(self.entries@)
    }

    pub fn new() -> (r: Leases)
        ensures
            r.wf(),
            r@ == Map::<Seq<u8>, (u32, u64)>::empty(),
    {
        Leases { entries: Vec::new() }
    }

    /// The number of leases.
    pub fn len(&self) -> (r: usize)
        requires
            self.wf(),
        ensures
            r == self@.len(),
    {
        proof {
            lease_map_len(self.entries@);
        }
        self.entries.len()
    }

    /// Forgets the leases that have run out.
    pub fn expire(&mut self, now_secs: u64)
        requires
            old(self).wf(),
        ensures
            final(self).wf(),
            final(self)@ == live(old(self)@, now_secs),
    {
        let mut kept: Vec<Lease> = Vec::new();
        let ghost all = self.entries@;
        let mut i: usize = 0;
        assert(lease_map(kept@) =~= live(lease_map(all.take(0)), now_secs));
        while i < self.entries.len()
            invariant
                i <= self.entries.len(),
                all == self.entries@,
                one_lease_each(all),
                one_lease_each(kept@),
                forall|k: int|
                    0 <= k < kept@.len() ==> exists|m: int|
                        0 <= m < i && (#[trigger] kept@[k]).client@ == (#[trigger] all[m]).client@,
                lease_map(kept@) == live(lease_map(all.take(i as int)), now_secs),
            decreases self.entries.len() - i,
        {
            let lease = self.entries[i];
            let ghost before = kept@;
            let ghost past = lease_map(all.take(i as int));
            proof {
                let next = all.take(i as int + 1);
                assert(next.drop_last() =~= all.take(i as int));
                assert(next.last() == lease);
                lease_map_has(all.take(i as int), lease.client@);
                assert(!past.contains_key(lease.client@)) by {
                    if past.contains_key(lease.client@) {
                        let m = choose|m: int|
                            0 <= m < i && (#[trigger] all.take(i as int)[m]).client@
                                == lease.client@;
                        assert(all[m].client@ != all[i as int].client@);
                    }
                }
            }
            if lease.expiry > now_secs {
                kept.push(lease);
                proof {
                    assert(kept@.drop_last() =~= before);
                    assert forall|a: int, b: int| 0 <= a < b < kept@.len() implies kept@[a].client@
                        != kept@[b].client@ by {
                        if b == kept@.len() - 1 {
                            let m = choose|m: int|
                                0 <= m < i && before[a].client@ == (#[trigger] all[m]).client@;
                            assert(kept@[a] == before[a]);
                            assert(all[m].client@ != all[i as int].client@);
                        } else {
                            assert(kept@[a] == before[a] && kept@[b] == before[b]);
                        }
                    }
                    assert forall|k: int| 0 <= k < kept@.len() implies exists|m: int|
                        0 <= m < i + 1 && (#[trigger] kept@[k]).client@ == (#[trigger] all[m]).client@ by {
                        if k < before.len() {
                            assert(kept@[k] == before[k]);
                            let m = choose|m: int|
                                0 <= m < i && before[k].client@ == (#[trigger] all[m]).client@;
                            assert(kept@[k].client@ == all[m].client@);
                        } else {
                            assert(kept@[k].client@ == all[i as int].client@);
                        }
                    }
                }
            }
            assert(lease_map(kept@) =~= live(lease_map(all.take(i as int + 1)), now_secs));
            i = i + 1;
        }
        assert(all.take(i as int) =~= all);
        self.entries = kept;
    }

    /// The position of a client's lease.
    fn position(&self, client: &[u8; 6]) -> (r: Option<usize>)
        requires
            self.wf(),
        ensures
            match r {
                Some(i) => i < self.entries.len() && self.entries@[i as int].client@ == client@
                    && self@.contains_key(client@) && self@[client@] == (
                    self.entries@[i as int].address,
                    self.entries@[i as int].expiry,
                ),
                None => !self@.contains_key(client@),
            },
    {
        let mut i: usize = 0;
        while i < self.entries.len()
            invariant
                self.wf(),
                i <= self.entries.len(),
                forall|k: int| 0 <= k < i ==> (#[trigger] self.entries@[k]).client@ != client@,
            decreases self.entries.len() - i,
        {
            if same_client(&self.entries[i].client, client) {
                proof {
                    lease_map_at(self.entries@, i as int);
                }
                return Some(i);
            }
            i = i + 1;
        }
        proof {
            lease_map_has(self.entries@, client@);
        }
        None
    }

    /// Whether the client holds a lease.
    pub fn holds(&self, client: &[u8; 6]) -> (r: bool)
        requires
            self.wf(),
        ensures
            r == self@.contains_key(client@),
    {
        self.position(client).is_some()
    }

    /// Whether some client holds the address.
    fn uses(&self, address: u32) -> (r: bool)
        requires
            self.wf(),
        ensures
            r == in_use(self@, address),
    {
        let mut i: usize = 0;
        while i < self.entries.len()
            invariant
                self.wf(),
                i <= self.entries.len(),
                forall|k: int| 0 <= k < i ==> (#[trigger] self.entries@[k]).address != address,
            decreases self.entries.len() - i,
        {
            if self.entries[i].address == address {
                proof {
                    lease_map_at(self.entries@, i as int);
                    assert(self@[self.entries@[i as int].client@].0 == address);
                }
                return true;
            }
            i = i + 1;
        }
        assert(!in_use(self@, address)) by {
            if in_use(self@, address) {
                let c = choose|c: Seq<u8>| self@.contains_key(c) && (#[trigger] self@[c]).0
                    == address;
                lease_map_has(self.entries@, c);
                let k = choose|k: int|
                    0 <= k < self.entries@.len() && (#[trigger] self.entries@[k]).client@ == c;
                lease_map_at(self.entries@, k);
            }
        }
        false
    }

    fn add(&mut self, client: [u8; 6], address: u32, expiry: u64)
        requires
            old(self).wf(),
            !old(self)@.contains_key(client@),
        ensures
            final(self).wf(),
            final(self)@ == old(self)@.insert(client@, (address, expiry)),
    {
        let ghost before = self.entries@;
        self.entries.push(Lease { client, address, expiry });
        proof {
            assert(self.entries@.drop_last() =~= before);
            lease_map_has(before, client@);
            assert forall|a: int, b: int| 0 <= a < b < self.entries@.len() implies self.entries@[a].client@
                != self.entries@[b].client@ by {
                assert(self.entries@[a] == before[a]);
                if b < before.len() {
                    assert(self.entries@[b] == before[b]);
                }
            }
        }
    }

    fn renew(&mut self, at: usize, expiry: u64)
        requires
            old(self).wf(),
            at < old(self).entries.len(),
        ensures
            final(self).wf(),
            final(self)@ == old(self)@.insert(
                old(self).entries@[at as int].client@,
                (old(self).entries@[at as int].address, expiry),
            ),
    {
        let ghost before = self.entries@;
        let lease = self.entries[at];
        self.entries[at] = Lease { client: lease.client, address: lease.address, expiry };
        proof {
            lease_map_renewed(before, at as int, expiry);
            assert(self.entries@ =~= before.update(
                at as int,
                Lease { expiry, ..before[at as int] },
            ));
            assert forall|a: int, b: int| 0 <= a < b < self.entries@.len() implies self.entries@[a].client@
                != self.entries@[b].client@ by {
                assert(before[a].client@ != before[b].client@);
            }
        }
    }
}

proof fn lease_map_len(entries: Seq<Lease>)
    requires
        one_lease_each(entries),
    ensures
        lease_map(entries).dom().finite(),
        lease_map(entries).len() == entries.len(),
    decreases entries.len(),
{
    if entries.len() > 0 {
        let front = entries.drop_last();
        assert forall|a: int, b: int| 0 <= a < b < front.len() implies front[a].client@
            != front[b].client@ by {
            assert(entries[a].client@ != entries[b].client@);
        }
        lease_map_len(front);
        lease_map_has(front, entries.last().client@);
        assert(!lease_map(front).contains_key(entries.last().client@)) by {
            if lease_map(front).contains_key(entries.last().client@) {
                let k = choose|k: int|
                    0 <= k < front.len() && (#[trigger] front[k]).client@
                        == entries.last().client@;
                assert(entries[k].client@ != entries[entries.len() - 1].client@);
            }
        }
    }
}

/// A range of addresses to lease from.
#[derive(Clone, Copy, Debug, PartialEq, Eq)]
pub struct Pool {
    pub start: u32,
    pub end: u32,
}

/// The lowest address of the range that nobody holds.
pub open spec fn lowest_free(
    leases: Map<Seq<u8>, (u32, u64)>,
    from: int,
    end: u32,
) -> Option<u32>
    decreases end - from + 1,
{
    if from > end {
        None
    } else if !in_use(leases, from as u32) {
        Some(from as u32)
    } else {
        lowest_free(leases, from + 1, end)
    }
}

/// The address that a client is given from the leases that are still live: its own, the one
/// it asks for, or the lowest free one. A client that asks for another address than the one
/// it holds gets none.
pub open spec fn granted(
    pool: Pool,
    leases: Map<Seq<u8>, (u32, u64)>,
    client: Seq<u8>,
    requested: Option<u32>,
) -> Option<u32> {
    if leases.contains_key(client) {
        if requested is Some && requested->0 != leases[client].0 {
            None
        } else {
            Some(leases[client].0)
        }
    } else {
        match requested {
            Some(address) => if pool.start <= address <= pool.end && !in_use(leases, address) {
                Some(address)
            } else {
                None
            },
            None => lowest_free(leases, pool.start as int, pool.end),
        }
    }
}

/// The later of a moment and a span behind it; the last moment where that would overflow.
pub open spec fn until(now: u64, span: u32) -> u64 {
    if now + span > u64::MAX {
        u64::MAX
    } else {
        (now + span) as u64
    }
}

/// The leases after a client was served.
pub open spec fn leases_after(
    pool: Pool,
    leases: Map<Seq<u8>, (u32, u64)>,
    client: Seq<u8>,
    now: u64,
    lease_secs: u32,
    requested: Option<u32>,
) -> Map<Seq<u8>, (u32, u64)> {
    match granted(pool, live(leases, now), client, requested) {
        Some(address) => live(leases, now).insert(client, (address, until(now, lease_secs))),
        None => live(leases, now),
    }
}

/// Serving a client never gives one address to two clients, and leases that lie in the range stay
/// in it.
pub proof fn leases_stay_exclusive(
    pool: Pool,
    leases: Map<Seq<u8>, (u32, u64)>,
    client: Seq<u8>,
    now: u64,
    lease_secs: u32,
    requested: Option<u32>,
)
    requires
        exclusive(leases),
    ensures
        exclusive(leases_after(pool, leases, client, now, lease_secs, requested)),
        within(leases, pool.start, pool.end) ==> within(
            leases_after(pool, leases, client, now, lease_secs, requested),
            pool.start,
            pool.end,
        ),
{
    let kept = live(leases, now);
    let next = leases_after(pool, leases, client, now, lease_secs, requested);
    lowest_free_is_free(kept, pool.start as int, pool.end);
    assert forall|a: Seq<u8>, b: Seq<u8>|
        next.contains_key(a) && next.contains_key(b) && a != b implies (#[trigger] next[a]).0 != (
    #[trigger] next[b]).0 by {
        if a != client && b != client {
            assert(leases[a].0 != leases[b].0);
        } else if kept.contains_key(client) {
            assert(leases[a].0 != leases[b].0);
        } else if a == client {
            assert(kept.contains_key(b) && kept[b] == next[b]);
        } else {
            assert(kept.contains_key(a) && kept[a] == next[a]);
        }
    }
    if within(leases, pool.start, pool.end) {
        assert forall|c: Seq<u8>| next.contains_key(c) implies pool.start <= (#[trigger] next[c]).0
            <= pool.end by {
            if c != client || kept.contains_key(client) {
                assert(leases.contains_key(c) && leases[c].0 == next[c].0);
            }
        }
    }
}

/// A live lease is renewed for the same address.
pub proof fn live_leases_are_kept(
    pool: Pool,
    leases: Map<Seq<u8>, (u32, u64)>,
    client: Seq<u8>,
    now: u64,
)
    requires
        leases.contains_key(client),
        leases[client].1 > now,
    ensures
        granted(pool, live(leases, now), client, None) == Some(leases[client].0),
{
}

proof fn lowest_free_is_free(leases: Map<Seq<u8>, (u32, u64)>, from: int, end: u32)
    requires
        0 <= from,
    ensures
        match lowest_free(leases, from, end) {
            Some(address) => from <= address <= end && !in_use(leases, address) && forall|k: int|
                from <= k < address ==> in_use(leases, #[trigger] (k as u32)),
            None => forall|k: int| from <= k <= end ==> in_use(leases, #[trigger] (k as u32)),
        },
    decreases end - from + 1,
{
    if from <= end && in_use(leases, from as u32) {
        lowest_free_is_free(leases, from + 1, end);
    }
}

impl Pool {
    pub fn new(start: u32, end: u32) -> (r: Option<Pool>)
        ensures
            r is Some <==> start <= end,
            r is Some ==> r->0.start == start && r->0.end == end,
    {
        if start <= end {
            Some(Pool { start, end })
        } else {
            None
        }
    }

    /// Leases the client's own address, or the lowest free one.
    pub fn allocate(
        &self,
        leases: &mut Leases,
        client: [u8; 6],
        now_secs: u64,
        lease_secs: u32,
    ) -> (r: Option<u32>)
        requires
            old(leases).wf(),
        ensures
            final(leases).wf(),
            lease_secs == 0 ==> r is None && final(leases)@ == old(leases)@,
            lease_secs != 0 ==> {
                &&& r == granted(*self, live(old(leases)@, now_secs), client@, None)
                &&& final(leases)@ == leases_after(
                    *self,
                    old(leases)@,
                    client@,
                    now_secs,
                    lease_secs,
                    None,
                )
            },
    {
        self.allocate_requested(leases, client, now_secs, lease_secs, None)
    }

    /// Leases an address to a client that may ask for one. A lease of no length is refused
    /// and changes nothing; otherwise the leases that have run out are forgotten.
    pub fn allocate_requested(
        &self,
        leases: &mut Leases,
        client: [u8; 6],
        now_secs: u64,
        lease_secs: u32,
        requested: Option<u32>,
    ) -> (r: Option<u32>)
        requires
            old(leases).wf(),
        ensures
            final(leases).wf(),
            lease_secs == 0 ==> r is None && final(leases)@ == old(leases)@,
            lease_secs != 0 ==> {
                &&& r == granted(*self, live(old(leases)@, now_secs), client@, requested)
                &&& final(leases)@ == leases_after(
                    *self,
                    old(leases)@,
                    client@,
                    now_secs,
                    lease_secs,
                    requested,
                )
            },
    {
        if lease_secs == 0 {
            return None;
        }
        leases.expire(now_secs);
        let expiry: u64 = now_secs.saturating_add(lease_secs as u64);
        match leases.position(&client) {
            Some(at) => {
                let address: u32 = leases.entries[at].address;
                match requested {
                    Some(wanted) => {
                        if wanted != address {
                            return None;
                        }
                    },
                    None => {},
                }
                leases.renew(at, expiry);
                return Some(address);
            },
            None => {},
        }
        match requested {
            Some(wanted) => {
                if wanted >= self.start && wanted <= self.end && !leases.uses(wanted) {
                    leases.add(client, wanted, expiry);
                    return Some(wanted);
                }
                return None;
            },
            None => {},
        }
        let ghost kept = leases@;
        let mut candidate: u64 = self.start as u64;
        while candidate <= self.end as u64
            invariant
                leases.wf(),
                leases@ == kept,
                kept == live(old(leases)@, now_secs),
                !kept.contains_key(client@),
                self.start <= candidate <= 0x1_0000_0000,
                lease_secs != 0,
                requested is None,
                expiry == until(now_secs, lease_secs),
                lowest_free(kept, self.start as int, self.end) == lowest_free(
                    kept,
                    candidate as int,
                    self.end,
                ),
            decreases self.end + 1 - candidate,
        {
            let address: u32 = candidate as u32;
            if !leases.uses(address) {
                leases.add(client, address, expiry);
                return Some(address);
            }
            candidate = candidate + 1;
        }
        None
    }
}

// ---- serving -------------------------------------------------------------------------

/// What a server needs to answer requests, and the leases it has given.
pub struct Responder {
    pub pool: Pool,
    pub server: u32,
    pub subnet_mask: u32,
    pub router: Option<u32>,
    pub dns: Option<u32>,
    pub dns_servers: Vec<u32>,
    pub domain_name: Option<String>,
    pub lease_secs: u32,
    pub max_leases: usize,
    pub leases: Leases,
}

/// A reply and where it goes.
#[derive(Clone, Debug, PartialEq, Eq)]
pub struct Reply {
    pub bytes: Vec<u8>,
    pub destination: SocketAddr,
}

/// The type of the reply to a request of the given type, where it is answered at all.
pub open spec fn reply_type(kind: MessageType) -> Option<MessageType> {
    match kind {
        MessageType::Discover => Some(MessageType::Offer),
        MessageType::Request => Some(MessageType::Ack),
        _ => None,
    }
}

/// The address that a request asks for; an offer is not bound to one.
pub open spec fn asked_address(request: RequestView) -> Option<u32> {
    if request.message_type == MessageType::Request {
        request.requested_ip
    } else {
        None
    }
}

/// Whether the lease table has no room for another client.
pub open spec fn table_full(
    leases: Map<Seq<u8>, (u32, u64)>,
    client: Seq<u8>,
    max_leases: usize,
) -> bool {
    leases.len() >= max_leases && !leases.contains_key(client)
}

/// Where a reply goes: to everybody if the client asked for that or has no address yet.
pub open spec fn reply_destination(request: RequestView, peer: SocketAddr) -> SocketAddr {
    if request.broadcast || peer.ip == IpAddr::V4(0) || peer.ip == IpAddr::V6(0) {
        SocketAddr { ip: IpAddr::V4(0xffff_ffff), port: CLIENT_PORT, scope: 0 }
    } else {
        peer
    }
}

impl Responder {
    pub open spec fn wf(&self) -> bool {
        self.leases.wf()
    }

    pub open spec fn reply_view(&self) -> ReplyView {
        ReplyView {
            server: self.server,
            subnet_mask: self.subnet_mask,
            router: self.router,
            dns: self.dns,
            dns_servers: self.dns_servers@,
            domain_name: match self.domain_name {
                Some(name) => Some(encode_utf8(name@)),
                None => None,
            },
            lease_secs: self.lease_secs,
        }
    }

    /// The request that is served, with the type of its reply; nothing where the packet is no
    /// request, is of a type that is not answered, or finds the table full.
    pub open spec fn accepts(&self, packet: Seq<u8>, now: u64) -> Option<
        (RequestView, MessageType),
    > {
        match request_of(packet) {
            Ok(request) => match reply_type(request.message_type) {
                Some(kind) => if table_full(live(self.leases@, now), request.client, self.max_leases) {
                    None
                } else {
                    Some((request, kind))
                },
                None => None,
            },
            Err(_) => None,
        }
    }

    /// The address that is leased to the sender of a packet.
    pub open spec fn leases_to(&self, packet: Seq<u8>, now: u64) -> Option<u32> {
        match self.accepts(packet, now) {
            Some((request, _)) => if self.lease_secs == 0 {
                None
            } else {
                granted(
                    self.pool,
                    live(self.leases@, now),
                    request.client,
                    asked_address(request),
                )
            },
            None => None,
        }
    }

    /// The leases after a packet was handled.
    pub open spec fn leases_then(&self, packet: Seq<u8>, now: u64) -> Map<Seq<u8>, (u32, u64)> {
        match request_of(packet) {
            Ok(request) => if reply_type(request.message_type) is None {
                self.leases@
            } else {
                match self.leases_to(packet, now) {
                    Some(address) => live(self.leases@, now).insert(
                        request.client,
                        (address, until(now, self.lease_secs)),
                    ),
                    None => live(self.leases@, now),
                }
            },
            Err(_) => self.leases@,
        }
    }

    /// Handles one packet: leases an address and builds the reply. There is a reply exactly
    /// when an address was leased and the reply fits a packet.
    pub fn respond(&mut self, packet: &[u8], peer: SocketAddr, now_secs: u64) -> (r: Option<Reply>)
        requires
            old(self).wf(),
        ensures
            final(self).wf(),
            final(self).leases@ == old(self).leases_then(packet@, now_secs),
            final(self).pool == old(self).pool,
            final(self).reply_view() == old(self).reply_view(),
            final(self).max_leases == old(self).max_leases,
            r is Some <==> old(self).leases_to(packet@, now_secs) is Some && reply_len(
                old(self).reply_view(),
            ) <= MAX_DHCP_PACKET,
            r is Some ==> {
                let (request, kind) = old(self).accepts(packet@, now_secs)->0;
                &&& r->0.bytes@ == reply_bytes(
                    request,
                    kind,
                    old(self).leases_to(packet@, now_secs)->0,
                    old(self).reply_view(),
                )
                &&& r->0.destination == reply_destination(request, peer)
            },
    {
        let request = match Request::parse(packet) {
            Ok(request) => request,
            Err(_) => {
                return None;
            },
        };
        let kind = match request.message_type {
            MessageType::Discover => MessageType::Offer,
            MessageType::Request => MessageType::Ack,
            _ => {
                return None;
            },
        };
        self.leases.expire(now_secs);
        let held = self.leases.holds(&request.client);
        if self.leases.len() >= self.max_leases && !held {
            return None;
        }
        let requested = if request.message_type == MessageType::Request {
            request.requested_ip
        } else {
            None
        };
        let ghost kept = self.leases@;
        assert(live(kept, now_secs) =~= kept);
        let address: u32 = match self.pool.allocate_requested(
            &mut self.leases,
            request.client,
            now_secs,
            self.lease_secs,
            requested,
        ) {
            Some(address) => address,
            None => {
                return None;
            },
        };
        let domain_name = match &self.domain_name {
            Some(name) => Some(name.as_str()),
            None => None,
        };
        let config = ReplyConfig {
            server: self.server,
            subnet_mask: self.subnet_mask,
            router: self.router,
            dns: self.dns,
            dns_servers: self.dns_servers.as_slice(),
            domain_name,
            lease_secs: self.lease_secs,
        };
        let bytes = build_reply(&request, kind, address, &config);
        proof {
            assert(config@ == self.reply_view());
            reply_has_its_length(request@, kind, address, config@);
        }
        if bytes.len() > MAX_DHCP_PACKET {
            return None;
        }
        let unspecified = match peer.ip {
            IpAddr::V4(value) => value == 0,
            IpAddr::V6(value) => value == 0,
        };
        let destination = if request.broadcast || unspecified {
            SocketAddr { ip: IpAddr::V4(0xffff_ffff), port: CLIENT_PORT, scope: 0 }
        } else {
            peer
        };
        Some(Reply { bytes, destination })
    }
}

/// The address that an optional text spells; nothing where the text is no address.
pub open spec fn optional_ipv4(text: Option<String>) -> Option<Option<u32>> {
    match text {
        None => Some(None),
        Some(value) => match ipv4(value@) {
            Some(address) => Some(Some(address as u32)),
            None => None,
        },
    }
}

pub open spec fn all_ipv4(list: Seq<Seq<char>>) -> bool {
    forall|i: int| 0 <= i < list.len() ==> ipv4(#[trigger] list[i]) is Some
}

/// Whether every address of a configuration can be read and the pool is in order.
pub open spec fn readable(config: DhcpConfig) -> bool {
    &&& ipv4(config.server@) is Some
    &&& ipv4(config.subnet_mask@) is Some
    &&& ipv4(config.pool_start@) is Some
    &&& ipv4(config.pool_end@) is Some
    &&& ipv4(config.pool_start@)->0 <= ipv4(config.pool_end@)->0
    &&& optional_ipv4(config.router) is Some
    &&& optional_ipv4(config.dns) is Some
    &&& all_ipv4(texts(config.dns_servers@))
}

fn read_ipv4(text: &str) -> (r: Option<u32>)
    ensures
        r is Some <==> ipv4(text@) is Some,
        r is Some ==> r->0 == ipv4(text@)->0,
{
    let chars = to_chars(text);
    parse_ipv4(&chars)
}

fn read_optional_ipv4(text: &Option<String>) -> (r: Option<Option<u32>>)
    ensures
        r == optional_ipv4(*text),
{
    match text {
        None => Some(None),
        Some(value) => match read_ipv4(value.as_str()) {
            Some(address) => Some(Some(address)),
            None => None,
        },
    }
}

impl Responder {
    /// A server with no leases yet, where every address of the configuration can be read.
    pub fn new(config: &DhcpConfig) -> (r: Option<Responder>)
        ensures
            r is Some <==> readable(*config),
            r is Some ==> {
                let v = r->0;
                &&& v.wf()
                &&& v.leases@ == Map::<Seq<u8>, (u32, u64)>::empty()
                &&& v.pool.start == ipv4(config.pool_start@)->0
                &&& v.pool.end == ipv4(config.pool_end@)->0
                &&& v.max_leases == config.max_leases
                &&& v.reply_view() == (ReplyView {
                    server: ipv4(config.server@)->0 as u32,
                    subnet_mask: ipv4(config.subnet_mask@)->0 as u32,
                    router: optional_ipv4(config.router)->0,
                    dns: optional_ipv4(config.dns)->0,
                    dns_servers: Seq::new(
                        config.dns_servers@.len(),
                        |i: int| ipv4(config.dns_servers@[i]@)->0 as u32,
                    ),
                    domain_name: match config.domain_name {
                        Some(name) => Some(encode_utf8(name@)),
                        None => None,
                    },
                    lease_secs: config.lease_secs,
                })
            },
    {
        let server = read_ipv4(config.server.as_str());
        let mask = read_ipv4(config.subnet_mask.as_str());
        let start = read_ipv4(config.pool_start.as_str());
        let end = read_ipv4(config.pool_end.as_str());
        let router = read_optional_ipv4(&config.router);
        let dns = read_optional_ipv4(&config.dns);
        let ghost names = texts(config.dns_servers@);
        let ghost wanted = Seq::new(
            config.dns_servers@.len(),
            |i: int| ipv4(config.dns_servers@[i]@)->0 as u32,
        );
        let mut dns_servers: Vec<u32> = Vec::new();
        let mut i: usize = 0;
        while i < config.dns_servers.len()
            invariant
                i <= config.dns_servers.len(),
                names == texts(config.dns_servers@),
                wanted == Seq::new(
                    config.dns_servers@.len(),
                    |i: int| ipv4(config.dns_servers@[i]@)->0 as u32,
                ),
                forall|k: int| 0 <= k < i ==> ipv4(#[trigger] names[k]) is Some,
                dns_servers@ == wanted.take(i as int),
            decreases config.dns_servers.len() - i,
        {
            assert(names[i as int] == config.dns_servers[i as int]@);
            match read_ipv4(config.dns_servers[i].as_str()) {
                Some(address) => {
                    dns_servers.push(address);
                },
                None => {
                    return None;
                },
            }
            i = i + 1;
            assert(dns_servers@ =~= wanted.take(i as int));
        }
        assert(wanted.take(i as int) =~= wanted);
        match (server, mask, start, end, router, dns) {
            (
                Some(server),
                Some(subnet_mask),
                Some(start),
                Some(end),
                Some(router),
                Some(dns),
            ) => match Pool::new(start, end) {
                Some(pool) => {
                    let domain_name = crate::lists::copy_option(&config.domain_name);
                    Some(
                        Responder {
                            pool,
                            server,
                            subnet_mask,
                            router,
                            dns,
                            dns_servers,
                            domain_name,
                            lease_secs: config.lease_secs,
                            max_leases: config.max_leases,
                            leases: Leases::new(),
                        },
                    )
                },
                None => None,
            },
            _ => None,
        }
    }
}

proof fn live_leases_are_no_more(leases: Map<Seq<u8>, (u32, u64)>, now: u64)
    requires
        leases.dom().finite(),
    ensures
        live(leases, now).dom().finite(),
        live(leases, now).len() <= leases.len(),
{
    assert(live(leases, now).dom().subset_of(leases.dom()));
    vstd::set_lib::lemma_len_subset(live(leases, now).dom(), leases.dom());
}

/// A server holds no more leases than its limit, whatever packets it handles: where the leases that
/// have not run out are within it, they stay within it, and so do all that it keeps. A client that
/// holds none is given one only where the limit leaves room.
pub proof fn responder_keeps_to_its_limit(server: &Responder, packet: Seq<u8>, now: u64)
    requires
        server.wf(),
    ensures
        ({
            let held = live(server.leases@, now);
            let next = server.leases_then(packet, now);
            &&& next.dom().finite()
            &&& server.leases@.len() <= server.max_leases ==> next.len() <= server.max_leases
            &&& held.len() <= server.max_leases ==> live(next, now).len() <= server.max_leases
            &&& next != server.leases@ && held.len() <= server.max_leases ==> next.len()
                <= server.max_leases
            &&& forall|c: Seq<u8>| #[trigger]
                next.contains_key(c) && !server.leases@.contains_key(c) ==> held.len()
                    < server.max_leases
        }),
{
    let held = live(server.leases@, now);
    let next = server.leases_then(packet, now);
    lease_map_len(server.leases.entries@);
    live_leases_are_no_more(server.leases@, now);
    match request_of(packet) {
        Ok(request) => {
            if server.leases_to(packet, now) is Some {
                assert(next.dom() =~= held.dom().insert(request.client));
            }
        },
        Err(_) => {},
    }
    live_leases_are_no_more(next, now);
}

/// A server keeps each address with one client, and leases that lie in its pool inside it, whatever
/// packets it handles.
pub proof fn responder_keeps_leases_exclusive(server: &Responder, packet: Seq<u8>, now: u64)
    requires
        exclusive(server.leases@),
    ensures
        exclusive(server.leases_then(packet, now)),
        within(server.leases@, server.pool.start, server.pool.end) ==> within(
            server.leases_then(packet, now),
            server.pool.start,
            server.pool.end,
        ),
{
    match request_of(packet) {
        Ok(request) => {
            let kept = live(server.leases@, now);
            assert(live(kept, now) =~= kept);
            leases_stay_exclusive(
                server.pool,
                server.leases@,
                request.client,
                now,
                server.lease_secs,
                asked_address(request),
            );
            assert(exclusive(kept)) by {
                assert forall|a: Seq<u8>, b: Seq<u8>|
                    kept.contains_key(a) && kept.contains_key(b) && a != b implies (
                #[trigger] kept[a]).0 != (#[trigger] kept[b]).0 by {
                    assert(server.leases@[a].0 != server.leases@[b].0);
                }
            }
            if within(server.leases@, server.pool.start, server.pool.end) {
                assert forall|c: Seq<u8>| kept.contains_key(c) implies server.pool.start <= (
                #[trigger] kept[c]).0 <= server.pool.end by {
                    assert(server.leases@[c] == kept[c]);
                }
            }
        },
        Err(_) => {},
    }
}

// ---- settings ------------------------------------------------------------------------

pub const MAX_LEASES: usize = 4_096;

pub open spec fn dhcp_error(reason: Seq<char>) -> ErrorView {
    ErrorView::InvalidDhcp { reason }
}

/// What is wrong with a setting that must be an IPv4 address.
pub open spec fn address_fault(name: Seq<char>, value: Seq<char>) -> Option<Seq<char>> {
    if ipv4(value) is None {
        Some(name + " must be an IPv4 address"@)
    } else {
        None
    }
}

/// What is wrong with a setting that must be an IPv4 address where it is given.
pub open spec fn optional_fault(name: Seq<char>, value: Option<String>) -> Option<Seq<char>> {
    match value {
        Some(text) => address_fault(name, text@),
        None => None,
    }
}

/// What is wrong with the settings of the address service.
pub open spec fn dhcp_fault(config: DhcpConfig) -> Option<Seq<char>> {
    let listen = socket(config.listen@);
    if !config.enabled {
        None
    } else if listen is None {
        Some("listen must be a socket address"@)
    } else if !(listen->0.ip is V4) || listen->0.port != 67 {
        Some("listen must be an IPv4 DHCP server address on port 67"@)
    } else if address_fault("server"@, config.server@) is Some {
        address_fault("server"@, config.server@)
    } else if address_fault("subnet_mask"@, config.subnet_mask@) is Some {
        address_fault("subnet_mask"@, config.subnet_mask@)
    } else if address_fault("pool_start"@, config.pool_start@) is Some {
        address_fault("pool_start"@, config.pool_start@)
    } else if address_fault("pool_end"@, config.pool_end@) is Some {
        address_fault("pool_end"@, config.pool_end@)
    } else if ipv4(config.pool_start@)->0 > ipv4(config.pool_end@)->0 {
        Some("pool_start must not be greater than pool_end"@)
    } else if config.lease_secs == 0 || config.max_leases == 0 || config.max_leases > MAX_LEASES {
        Some("lease_secs and max_leases must be bounded and non-zero"@)
    } else if optional_fault("router"@, config.router) is Some {
        optional_fault("router"@, config.router)
    } else {
        optional_fault("dns"@, config.dns)
    }
}

fn refuse(reason: String) -> (r: PolicyError)
    ensures
        r@ == dhcp_error(reason@),
{
    PolicyError::InvalidDhcp { reason }
}

fn read_address(name: &str, value: &str) -> (r: Result<u32, PolicyError>)
    ensures
        match address_fault(name@, value@) {
            Some(reason) => r is Err && r->Err_0@ == dhcp_error(reason),
            None => r is Ok && r->Ok_0 == ipv4(value@)->0,
        },
{
    let chars = to_chars(value);
    match parse_ipv4(&chars) {
        Some(address) => Ok(address),
        None => Err(refuse(joined(name, " must be an IPv4 address"))),
    }
}

/// Checks the settings of the address service.
pub fn validate_dhcp(config: &DhcpConfig) -> (r: Result<(), PolicyError>)
    ensures
        match dhcp_fault(*config) {
            Some(reason) => r is Err && r->Err_0@ == dhcp_error(reason),
            None => r is Ok,
        },
{
    if !config.enabled {
        return Ok(());
    }
    let listen = match SocketAddr::parse(config.listen.as_str()) {
        Some(listen) => listen,
        None => {
            return Err(refuse("listen must be a socket address".to_owned()));
        },
    };
    let family = match listen.ip {
        IpAddr::V4(_) => true,
        IpAddr::V6(_) => false,
    };
    if !family || listen.port != 67 {
        return Err(refuse("listen must be an IPv4 DHCP server address on port 67".to_owned()));
    }
    match read_address("server", config.server.as_str()) {
        Ok(_) => {},
        Err(error) => {
            return Err(error);
        },
    }
    match read_address("subnet_mask", config.subnet_mask.as_str()) {
        Ok(_) => {},
        Err(error) => {
            return Err(error);
        },
    }
    let pool_start: u32 = match read_address("pool_start", config.pool_start.as_str()) {
        Ok(address) => address,
        Err(error) => {
            return Err(error);
        },
    };
    let pool_end: u32 = match read_address("pool_end", config.pool_end.as_str()) {
        Ok(address) => address,
        Err(error) => {
            return Err(error);
        },
    };
    if pool_start > pool_end {
        return Err(refuse("pool_start must not be greater than pool_end".to_owned()));
    }
    if config.lease_secs == 0 || config.max_leases == 0 || config.max_leases > MAX_LEASES {
        return Err(refuse("lease_secs and max_leases must be bounded and non-zero".to_owned()));
    }
    match &config.router {
        Some(value) => match read_address("router", value.as_str()) {
            Ok(_) => {},
            Err(error) => {
                return Err(error);
            },
        },
        None => {},
    }
    match &config.dns {
        Some(value) => match read_address("dns", value.as_str()) {
            Ok(_) => {},
            Err(error) => {
                return Err(error);
            },
        },
        None => {},
    }
    Ok(())
}

// ---- what clients are owed -----------------------------------------------------------

/// A client that holds an address is given that address again, whether it asks for it by name or
/// for none, and from then on for the whole length of a lease.
pub proof fn held_addresses_are_renewed(
    pool: Pool,
    leases: Map<Seq<u8>, (u32, u64)>,
    client: Seq<u8>,
    now: u64,
    lease_secs: u32,
    requested: Option<u32>,
)
    requires
        leases.contains_key(client),
        leases[client].1 > now,
        requested == Some(leases[client].0) || requested is None,
        now + lease_secs <= u64::MAX,
    ensures
        granted(pool, live(leases, now), client, requested) == Some(leases[client].0),
        ({
            let next = leases_after(pool, leases, client, now, lease_secs, requested);
            &&& next.contains_key(client)
            &&& next[client].0 == leases[client].0
            &&& next[client].1 == now + lease_secs
        }),
{
}

/// A client that holds an address is not given another one that it asks for.
pub proof fn other_addresses_are_not_swapped_in(
    pool: Pool,
    leases: Map<Seq<u8>, (u32, u64)>,
    client: Seq<u8>,
    now: u64,
    requested: u32,
)
    requires
        leases.contains_key(client),
        leases[client].1 > now,
        requested != leases[client].0,
    ensures
        granted(pool, live(leases, now), client, Some(requested)) is None,
{
}

/// A client without a lease, or whose lease has run out, is given the address that it asks for where
/// that lies in the range and no live lease holds it, and nothing otherwise. Where it asks for none
/// it is given an address of the range that no live lease holds, and none below it is free; it goes
/// away empty only where the whole range is held.
pub proof fn new_clients_are_given_free_addresses(
    pool: Pool,
    leases: Map<Seq<u8>, (u32, u64)>,
    client: Seq<u8>,
    now: u64,
    requested: Option<u32>,
)
    requires
        leases.contains_key(client) ==> leases[client].1 <= now,
    ensures
        ({
            let free = |address: int|
                forall|c: Seq<u8>|
                    leases.contains_key(c) && leases[c].1 > now ==> (#[trigger] leases[c]).0
                        != address;
            match granted(pool, live(leases, now), client, requested) {
                Some(address) => {
                    &&& pool.start <= address <= pool.end
                    &&& free(address as int)
                    &&& requested is Some ==> address == requested->0
                    &&& requested is None ==> forall|k: int|
                        pool.start <= k < address ==> !#[trigger] free(k)
                },
                None => match requested {
                    Some(address) => !(pool.start <= address <= pool.end) || !free(address as int),
                    None => forall|k: int| pool.start <= k <= pool.end ==> !#[trigger] free(k),
                },
            }
        }),
{
    let kept = live(leases, now);
    let free = |address: int|
        forall|c: Seq<u8>|
            leases.contains_key(c) && leases[c].1 > now ==> (#[trigger] leases[c]).0 != address;
    lowest_free_is_free(kept, pool.start as int, pool.end);
    assert forall|a: u32| free(a as int) == !#[trigger] in_use(kept, a) by {
        if in_use(kept, a) {
            let c = choose|c: Seq<u8>| kept.contains_key(c) && (#[trigger] kept[c]).0 == a;
            assert(leases[c].0 == a);
        }
        if !free(a as int) {
            let c = choose|c: Seq<u8>|
                leases.contains_key(c) && leases[c].1 > now && (#[trigger] leases[c]).0 == a as int;
            assert(kept.contains_key(c) && kept[c].0 == a);
        }
    }
    match granted(pool, kept, client, requested) {
        Some(address) => {
            assert(!in_use(kept, address));
            if requested is None {
                assert forall|k: int| pool.start <= k < address implies !#[trigger] free(k) by {
                    assert(in_use(kept, k as u32));
                }
            }
        },
        None => {
            match requested {
                Some(address) => {
                    assert(free(address as int) == !in_use(kept, address));
                },
                None => {
                    assert forall|k: int| pool.start <= k <= pool.end implies !#[trigger] free(k) by {
                        assert(in_use(kept, k as u32));
                    }
                },
            }
        },
    }
}

/// Serving one client leaves the live leases of the others as they are, and lets go of those that
/// have run out.
pub proof fn serving_a_client_leaves_the_others(
    pool: Pool,
    leases: Map<Seq<u8>, (u32, u64)>,
    client: Seq<u8>,
    other: Seq<u8>,
    now: u64,
    lease_secs: u32,
    requested: Option<u32>,
)
    requires
        other != client,
    ensures
        ({
            let next = leases_after(pool, leases, client, now, lease_secs, requested);
            &&& next.contains_key(other) <==> leases.contains_key(other) && leases[other].1 > now
            &&& next.contains_key(other) ==> next[other] == leases[other]
        }),
{
}

/// An offer is kept: where a server answers a DISCOVER with the offer of an address, the REQUEST of
/// the same client for that address, before the lease has run out, is answered with an ACK of it,
/// and the lease is then held for its whole length from the REQUEST on.
pub proof fn offers_are_acknowledged(
    server: &Responder,
    discover: Seq<u8>,
    asked: RequestView,
    now: u64,
    offered: u32,
    after: &Responder,
    request: Seq<u8>,
    wanted: RequestView,
    later: u64,
)
    requires
        server.wf(),
        request_of(discover) == Ok::<RequestView, ParseError>(asked),
        asked.message_type == MessageType::Discover,
        server.leases_to(discover, now) == Some(offered),
        after.leases@ == server.leases_then(discover, now),
        after.pool == server.pool,
        after.lease_secs == server.lease_secs,
        after.max_leases == server.max_leases,
        request_of(request) == Ok::<RequestView, ParseError>(wanted),
        wanted.message_type == MessageType::Request,
        wanted.client == asked.client,
        wanted.requested_ip == Some(offered) || wanted.requested_ip is None,
        now <= later < now + server.lease_secs,
        later + server.lease_secs <= u64::MAX,
    ensures
        server.accepts(discover, now) == Some((asked, MessageType::Offer)),
        after.accepts(request, later) == Some((wanted, MessageType::Ack)),
        after.leases_to(request, later) == Some(offered),
        ({
            let held = after.leases_then(request, later);
            &&& held.contains_key(asked.client)
            &&& held[asked.client].0 == offered
            &&& held[asked.client].1 == later + server.lease_secs
        }),
{
    let held = live(after.leases@, later);
    assert(after.leases@.contains_key(asked.client));
    assert(held.contains_key(asked.client) && held[asked.client].0 == offered);
}

/// A server answers DISCOVER and REQUEST and nothing else. With room in its table, and with a lease
/// to give, each of them gets an answer as long as the range has an address that nobody holds.
pub proof fn requests_are_answered_while_there_is_room(
    server: &Responder,
    packet: Seq<u8>,
    request: RequestView,
    now: u64,
)
    requires
        server.wf(),
        request_of(packet) == Ok::<RequestView, ParseError>(request),
    ensures
        ({
            let known = server.leases@.contains_key(request.client)
                && server.leases@[request.client].1 > now;
            let answered = request.message_type == MessageType::Discover || request.message_type
                == MessageType::Request;
            let room = known || live(server.leases@, now).len() < server.max_leases;
            &&& !answered || !room || server.lease_secs == 0 ==> server.leases_to(packet, now) is None
            &&& answered && room ==> server.accepts(packet, now) == Some(
                (
                    request,
                    if request.message_type == MessageType::Discover {
                        MessageType::Offer
                    } else {
                        MessageType::Ack
                    },
                ),
            )
            &&& answered && room && server.lease_secs > 0 ==> server.leases_to(packet, now)
                == granted(
                server.pool,
                live(server.leases@, now),
                request.client,
                if request.message_type == MessageType::Request {
                    request.requested_ip
                } else {
                    None
                },
            )
        }),
{
}

/// Four octets are the number's bytes from the highest to the lowest, and spell it when they are
/// read.
pub proof fn octets_are_in_network_order(value: u32, bytes: Seq<u8>)
    requires
        bytes.len() == 4,
    ensures
        octets(value).len() == 4,
        value == octets(value)[0] * 0x1000000 + octets(value)[1] * 0x10000 + octets(value)[2] * 0x100
            + octets(value)[3],
        be32(bytes, 0) == bytes[0] * 0x1000000 + bytes[1] * 0x10000 + bytes[2] * 0x100 + bytes[3],
{
    octets_round_trip(value);
}

/// A packet with the hardware address of its client, a message type and an address that is asked
/// for is read as just that.
pub proof fn requests_are_read_from_their_options(header: Seq<u8>, code: u8, wanted: u32)
    requires
        header.len() == 240,
        header[0] == 1 && header[1] == 1 && header[2] == 6 && header[3] == 0,
        header[236] == 99 && header[237] == 130 && header[238] == 83 && header[239] == 99,
        1 <= code <= 8,
    ensures
        ({
            let packet = header + seq![53u8, 1u8, code, 50u8, 4u8] + octets(wanted) + seq![255u8];
            let read = request_of(packet);
            &&& read is Ok
            &&& read->Ok_0.requested_ip == Some(wanted)
            &&& read->Ok_0.client == header.subrange(28, 34)
            &&& read->Ok_0.transaction_id == header[4] * 0x1000000 + header[5] * 0x10000 + header[6]
                * 0x100 + header[7]
            &&& read->Ok_0.broadcast == (header[10] >= 128)
            &&& code == 1 <==> read->Ok_0.message_type == MessageType::Discover
            &&& code == 3 <==> read->Ok_0.message_type == MessageType::Request
            &&& code == 7 <==> read->Ok_0.message_type == MessageType::Release
        }),
{
    let rest = octets(wanted) + seq![255u8];
    let tail = seq![53u8, 1u8, code, 50u8, 4u8] + rest;
    let packet = header + seq![53u8, 1u8, code, 50u8, 4u8] + octets(wanted) + seq![255u8];
    assert(packet =~= header + tail);
    assert(packet.subrange(236, 240) =~= cookie());
    assert(packet.subrange(28, 34) =~= header.subrange(28, 34));
    octets_round_trip(wanted);
    assert(packet.subrange(242, 243) =~= seq![code]);
    assert(packet.subrange(245, 249) =~= octets(wanted));
    let first = with_option(no_options(), 53, seq![code]);
    let second = with_option(first, 50, octets(wanted));
    assert(packet[249] == 255);
    assert(options(packet, 249, second) == Ok::<Options, ParseError>(second));
    assert(packet[243] == 50 && packet[244] == 4);
    assert(options(packet, 243, first) == Ok::<Options, ParseError>(second));
    assert(packet[240] == 53 && packet[241] == 1);
    assert(options(packet, 240, no_options()) == Ok::<Options, ParseError>(second));
}

/// A reply carries what it answers and what is leased: the transaction, the client, the address and
/// the server in its fixed part, and then the kind of message, the mask, the router, the first name
/// server and the length of the lease, each as an option of its number.
#[verifier::spinoff_prover]
pub proof fn replies_carry_the_lease(
    request: RequestView,
    kind: MessageType,
    address: u32,
    config: ReplyView,
)
    requires
        request.client.len() == 6,
    ensures
        ({
            let reply = reply_bytes(request, kind, address, config);
            let told = reply.skip(240);
            let names = if config.router is Some {
                15int
            } else {
                9
            };
            &&& reply[0] == 2
            &&& reply.subrange(4, 8) == octets(request.transaction_id)
            &&& reply.subrange(16, 20) == octets(address)
            &&& reply.subrange(20, 24) == octets(config.server)
            &&& reply.subrange(28, 34) == request.client
            &&& reply.subrange(236, 240) == seq![99u8, 130u8, 83u8, 99u8]
            &&& request.broadcast <==> reply[10] >= 128
            &&& told[0] == 53 && told[1] == 1
            &&& kind == MessageType::Offer <==> told[2] == 2
            &&& kind == MessageType::Ack <==> told[2] == 5
            &&& told.subrange(3, 9) == seq![1u8, 4u8] + octets(config.subnet_mask)
            &&& config.router is Some ==> told.subrange(9, 15) == seq![3u8, 4u8] + octets(
                config.router->0,
            )
            &&& config.dns is Some ==> told[names] == 6 && told.subrange(names + 2, names + 6)
                == octets(config.dns->0)
            &&& config.dns is None && config.dns_servers.len() > 0 ==> told[names] == 6
                && told.subrange(names + 2, names + 6) == octets(config.dns_servers[0])
            &&& told.subrange(told.len() - 7, told.len() as int) == seq![51u8, 4u8] + octets(
                config.lease_secs,
            ) + seq![255u8]
        }),
{
    let reply = reply_bytes(request, kind, address, config);
    let told = reply.skip(240);
    assert(told =~= reply_options(kind, config));
    assert(reply.subrange(4, 8) =~= octets(request.transaction_id));
    assert(reply.subrange(16, 20) =~= octets(address));
    assert(reply.subrange(20, 24) =~= octets(config.server));
    assert(reply.subrange(28, 34) =~= request.client);
    assert(reply.subrange(236, 240) =~= seq![99u8, 130u8, 83u8, 99u8]);
    assert(told.subrange(3, 9) =~= seq![1u8, 4u8] + octets(config.subnet_mask));
    if config.router is Some {
        assert(told.subrange(9, 15) =~= seq![3u8, 4u8] + octets(config.router->0));
    }
    let names = if config.router is Some {
        15int
    } else {
        9
    };
    let servers = listed_servers(config);
    if servers.len() > 0 {
        first_octets(servers);
        assert(told[names] == 6);
        assert(told.subrange(names + 2, names + 6) =~= all_octets(servers).take(4));
        assert(all_octets(servers).take(4) =~= octets(servers[0]));
    }
    assert(told.subrange(told.len() - 7, told.len() as int) =~= seq![51u8, 4u8] + octets(
        config.lease_secs,
    ) + seq![255u8]);
}

proof fn first_octets(list: Seq<u32>)
    requires
        list.len() > 0,
    ensures
        all_octets(list).len() == 4 * list.len(),
        all_octets(list).take(4) == octets(list[0]),
    decreases list.len(),
{
    all_octets_len(list);
    if list.len() == 1 {
        assert(list.drop_last() =~= Seq::empty());
        assert(all_octets(list).take(4) =~= octets(list[0]));
    } else {
        first_octets(list.drop_last());
        assert(all_octets(list).take(4) =~= all_octets(list.drop_last()).take(4));
    }
}

/// A reply lists its name servers in the order of the settings: the one of its own first, and up to
/// four of the others behind it.
pub proof fn replies_list_the_name_servers(config: ReplyView, i: int)
    requires
        0 <= i < listed_servers(config).len(),
    ensures
        config.dns is Some ==> listed_servers(config)[i] == (if i == 0 {
            config.dns->0
        } else {
            config.dns_servers[i - 1]
        }),
        config.dns is None ==> listed_servers(config)[i] == config.dns_servers[i],
        listed_servers(config).len() == (if config.dns is Some {
            1int
        } else {
            0
        }) + (if config.dns_servers.len() <= 4 {
            config.dns_servers.len() as int
        } else {
            4
        }),
{
}

/// A reply goes to everybody, at the port of clients, where the client asks for that or has no
/// address, and back to where the request came from otherwise.
pub proof fn replies_go_back_or_to_everybody(request: RequestView, peer: SocketAddr)
    ensures
        ({
            let to = reply_destination(request, peer);
            let nowhere = peer.ip == IpAddr::V4(0) || peer.ip == IpAddr::V6(0);
            &&& request.broadcast || nowhere ==> to.ip == IpAddr::V4(u32::MAX) && to.port == 68
            &&& !request.broadcast && !nowhere ==> to == peer
        }),
{
}

/// Settings are accepted where the service is off, and otherwise exactly where it listens on port 67
/// of an IPv4 address, every address can be read, the range is in order, the leases have a length
/// and there are 1 to 4096 of them.
pub proof fn accepted_settings_can_be_served(config: DhcpConfig)
    ensures
        dhcp_fault(config) is None <==> !config.enabled || {
            &&& socket(config.listen@) is Some
            &&& socket(config.listen@)->0.ip is V4
            &&& socket(config.listen@)->0.port == 67
            &&& ipv4(config.server@) is Some
            &&& ipv4(config.subnet_mask@) is Some
            &&& ipv4(config.pool_start@) is Some
            &&& ipv4(config.pool_end@) is Some
            &&& ipv4(config.pool_start@)->0 <= ipv4(config.pool_end@)->0
            &&& config.lease_secs > 0
            &&& 1 <= config.max_leases <= 4096
            &&& config.router is Some ==> ipv4(config.router->0@) is Some
            &&& config.dns is Some ==> ipv4(config.dns->0@) is Some
        },
{
}

} // verus!
