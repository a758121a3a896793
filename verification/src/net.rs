//! Internet addresses and networks as numbers, and the text forms they are written in.
use vstd::prelude::*;
use vstd::arithmetic::power2::{lemma2_to64, lemma2_to64_rest, lemma_pow2_adds, lemma_pow2_pos, pow2};
use vstd::bits::{lemma_u128_shr_is_div, lemma_u32_shr_is_div};
use vstd::slice::slice_subrange;

use crate::text::{copy_chars, find_char, glued, glued_pieces_part_again, index_of, split, split_at_char,
    to_chars, views};

verus! {

/// An address of either family, as the number that its octets spell in network order.
#[derive(Clone, Copy, Debug, PartialEq, Eq, Structural)]
pub enum IpAddr {
    V4(u32),
    V6(u128),
}

/// An address with the port behind it, and the scope of an IPv6 address where it has one.
#[derive(Clone, Copy, Debug, PartialEq, Eq, Structural)]
pub struct SocketAddr {
    pub ip: IpAddr,
    pub port: u16,
    pub scope: u32,
}

/// A network: the addresses of a family that agree with `base` on the first `prefix` bits.
#[derive(Clone, Copy, Debug, PartialEq, Eq, Structural)]
pub struct IpNetwork {
    pub base: IpAddr,
    pub prefix: u8,
}

// ---- numbers -------------------------------------------------------------------------

pub open spec fn is_digit(c: char) -> bool {
    '0' <= c && c <= '9'
}

pub open spec fn is_hex(c: char) -> bool {
    is_digit(c) || ('a' <= c && c <= 'f') || ('A' <= c && c <= 'F')
}

pub open spec fn digit_value(c: char) -> nat {
    if is_digit(c) {
        (c as u8 - 48) as nat
    } else if 'a' <= c && c <= 'f' {
        (c as u8 - 87) as nat
    } else {
        (c as u8 - 55) as nat
    }
}

/// The number that a digit string spells in the given base.
pub open spec fn number(s: Seq<char>, base: nat) -> nat
    decreases s.len(),
{
    if s.len() == 0 {
        0
    } else {
        number(s.drop_last(), base) * base + digit_value(s.last())
    }
}

pub open spec fn all_digits(s: Seq<char>) -> bool {
    forall|i: int| 0 <= i < s.len() ==> is_digit(#[trigger] s[i])
}

pub open spec fn all_hex(s: Seq<char>) -> bool {
    forall|i: int| 0 <= i < s.len() ==> is_hex(#[trigger] s[i])
}

/// An unsigned decimal number of at most `max`: an optional plus sign and at least one digit.
pub open spec fn unsigned(s: Seq<char>, max: nat) -> Option<nat> {
    let digits = if s.len() > 0 && s[0] == '+' {
        s.skip(1)
    } else {
        s
    };
    if digits.len() > 0 && all_digits(digits) && number(digits, 10) <= max {
        Some(number(digits, 10))
    } else {
        None
    }
}

proof fn number_grows(s: Seq<char>, k: int)
    requires
        0 <= k <= s.len(),
    ensures
        number(s.take(k), 10) <= number(s, 10),
    decreases s.len() - k,
{
    if k < s.len() {
        assert(s.take(k + 1).drop_last() == s.take(k));
        assert(number(s.take(k), 10) <= number(s.take(k + 1), 10)) by (nonlinear_arith)
            requires
                number(s.take(k + 1), 10) == number(s.take(k), 10) * 10 + digit_value(
                    s.take(k + 1).last(),
                ),
        ;
        number_grows(s, k + 1);
    } else {
        assert(s.take(k) == s);
    }
}

/// The number that a run of decimal digits spells, where it is at most `max`.
fn parse_digits(s: &[char], max: u64) -> (r: Option<u64>)
    requires
        max <= u32::MAX,
    ensures
        r is Some <==> s@.len() > 0 && all_digits(s@) && number(s@, 10) <= max,
        r is Some ==> r->0 == number(s@, 10),
{
    if s.len() == 0 {
        return None;
    }
    let mut value: u64 = 0;
    let mut i: usize = 0;
    while i < s.len()
        invariant
            max <= u32::MAX,
            i <= s.len(),
            value == number(s@.take(i as int), 10),
            value <= max,
            forall|k: int| 0 <= k < i ==> is_digit(#[trigger] s@[k]),
        decreases s.len() - i,
    {
        let c = s[i];
        if !('0' <= c && c <= '9') {
            assert(!is_digit(s@[i as int]));
            return None;
        }
        assert(s@.take(i as int + 1).drop_last() == s@.take(i as int));
        assert(s@.take(i as int + 1).last() == c);
        let next: u64 = value * 10 + (c as u8 - 48) as u64;
        if next > max {
            proof {
                number_grows(s@, i as int + 1);
            }
            return None;
        }
        value = next;
        i = i + 1;
    }
    assert(s@.take(i as int) == s@);
    Some(value)
}

/// Reads an unsigned decimal number of at most `max`.
pub fn parse_unsigned(s: &[char], max: u64) -> (r: Option<u64>)
    requires
        max <= u32::MAX,
    ensures
        r is Some <==> unsigned(s@, max as nat) is Some,
        r is Some ==> r->0 == unsigned(s@, max as nat)->0,
{
    if s.len() > 0 && s[0] == '+' {
        assert(s@.subrange(1, s@.len() as int) == s@.skip(1));
        parse_digits(slice_subrange(s, 1, s.len()), max)
    } else {
        parse_digits(s, max)
    }
}

// ---- IPv4 ----------------------------------------------------------------------------

/// One octet in decimal: one to three digits, no leading zero, at most 255.
pub open spec fn octet(s: Seq<char>) -> Option<nat> {
    if 1 <= s.len() <= 3 && all_digits(s) && (s.len() > 1 ==> s[0] != '0') && number(s, 10) <= 255 {
        Some(number(s, 10))
    } else {
        None
    }
}

/// Four octets with dots between them.
pub open spec fn ipv4(s: Seq<char>) -> Option<nat> {
    let p = split(s, '.');
    if p.len() == 4 && octet(p[0]) is Some && octet(p[1]) is Some && octet(p[2]) is Some && octet(
        p[3],
    ) is Some {
        Some(
            octet(p[0])->0 * 0x1000000 + octet(p[1])->0 * 0x10000 + octet(p[2])->0 * 0x100 + octet(
                p[3],
            )->0,
        )
    } else {
        None
    }
}

fn parse_octet(s: &[char]) -> (r: Option<u32>)
    ensures
        r is Some <==> octet(s@) is Some,
        r is Some ==> r->0 == octet(s@)->0 && r->0 <= 255,
{
    if s.len() == 0 || s.len() > 3 || (s.len() > 1 && s[0] == '0') {
        return None;
    }
    match parse_digits(s, 255) {
        Some(value) => Some(value as u32),
        None => None,
    }
}

/// Reads an IPv4 address.
pub fn parse_ipv4(s: &[char]) -> (r: Option<u32>)
    ensures
        r is Some <==> ipv4(s@) is Some,
        r is Some ==> r->0 == ipv4(s@)->0,
{
    let p = split_at_char(s, '.');
    let ghost pieces = split(s@, '.');
    if p.len() != 4 {
        return None;
    }
    assert(pieces[0] == p[0]@ && pieces[1] == p[1]@ && pieces[2] == p[2]@ && pieces[3] == p[3]@);
    match (parse_octet(&p[0]), parse_octet(&p[1]), parse_octet(&p[2]), parse_octet(&p[3])) {
        (Some(a), Some(b), Some(c), Some(d)) => Some(a * 0x1000000 + b * 0x10000 + c * 0x100 + d),
        _ => None,
    }
}

// ---- IPv6 ----------------------------------------------------------------------------

/// One 16-bit group: one to four hexadecimal digits.
pub open spec fn hex_group(s: Seq<char>) -> Option<nat> {
    if 1 <= s.len() <= 4 && all_hex(s) {
        Some(number(s, 16))
    } else {
        None
    }
}

pub open spec fn are_hex_groups(pieces: Seq<Seq<char>>) -> bool {
    forall|i: int| 0 <= i < pieces.len() ==> hex_group(#[trigger] pieces[i]) is Some
}

pub open spec fn hex_groups(pieces: Seq<Seq<char>>) -> Seq<nat> {
    Seq::new(pieces.len(), |i: int| hex_group(pieces[i])->0)
}

/// The groups on one side of the double colon. The last may be an IPv4 address, which
/// stands for two groups, where that is allowed.
pub open spec fn side_groups(s: Seq<char>, allow_ipv4: bool) -> Option<Seq<nat>> {
    let pieces = split(s, ':');
    if s.len() == 0 {
        Some(Seq::empty())
    } else if allow_ipv4 && ipv4(pieces.last()) is Some {
        let tail = ipv4(pieces.last())->0;
        if are_hex_groups(pieces.drop_last()) {
            Some(hex_groups(pieces.drop_last()).push(tail / 0x10000).push(tail % 0x10000))
        } else {
            None
        }
    } else if are_hex_groups(pieces) {
        Some(hex_groups(pieces))
    } else {
        None
    }
}

/// The position of the first double colon, or the length where there is none.
pub open spec fn double_colon(s: Seq<char>) -> int
    decreases s.len(),
{
    if s.len() == 0 {
        0
    } else if s.len() >= 2 && s[0] == ':' && s[1] == ':' {
        0
    } else {
        1 + double_colon(s.skip(1))
    }
}

/// The number that a list of 16-bit groups spells.
pub open spec fn groups_value(groups: Seq<nat>) -> nat
    decreases groups.len(),
{
    if groups.len() == 0 {
        0
    } else {
        groups_value(groups.drop_last()) * 0x10000 + groups.last()
    }
}

/// Eight groups, or fewer with a double colon that stands for at least one group of zeros.
pub open spec fn ipv6_groups(s: Seq<char>) -> Option<Seq<nat>> {
    let at = double_colon(s);
    if at == s.len() {
        match side_groups(s, true) {
            Some(groups) => if groups.len() == 8 {
                Some(groups)
            } else {
                None
            },
            None => None,
        }
    } else {
        match (side_groups(s.take(at), false), side_groups(s.skip(at + 2), true)) {
            (Some(head), Some(tail)) => if head.len() + tail.len() <= 7 {
                Some(head + Seq::new((8 - head.len() - tail.len()) as nat, |i: int| 0nat) + tail)
            } else {
                None
            },
            _ => None,
        }
    }
}

pub open spec fn ipv6(s: Seq<char>) -> Option<nat> {
    match ipv6_groups(s) {
        Some(groups) => Some(groups_value(groups)),
        None => None,
    }
}

fn parse_hex_group(s: &[char]) -> (r: Option<u16>)
    ensures
        r is Some <==> hex_group(s@) is Some,
        r is Some ==> r->0 == hex_group(s@)->0,
{
    if s.len() == 0 || s.len() > 4 {
        return None;
    }
    let mut value: u32 = 0;
    let mut i: usize = 0;
    while i < s.len()
        invariant
            i <= s.len() <= 4,
            value == number(s@.take(i as int), 16),
            i == 0 ==> value == 0,
            i == 1 ==> value < 0x10,
            i == 2 ==> value < 0x100,
            i == 3 ==> value < 0x1000,
            i == 4 ==> value < 0x10000,
            forall|k: int| 0 <= k < i ==> is_hex(#[trigger] s@[k]),
        decreases s.len() - i,
    {
        let c = s[i];
        let digit: u32 = if '0' <= c && c <= '9' {
            (c as u8 - 48) as u32
        } else if 'a' <= c && c <= 'f' {
            (c as u8 - 87) as u32
        } else if 'A' <= c && c <= 'F' {
            (c as u8 - 55) as u32
        } else {
            assert(!is_hex(s@[i as int]));
            return None;
        };
        assert(s@.take(i as int + 1).drop_last() == s@.take(i as int));
        assert(s@.take(i as int + 1).last() == c);
        value = value * 16 + digit;
        i = i + 1;
    }
    assert(s@.take(i as int) == s@);
    Some(value as u16)
}

/// The groups as machine integers.
spec fn wide(groups: Seq<u16>) -> Seq<nat> {
    Seq::new(groups.len(), |i: int| groups[i] as nat)
}

fn parse_hex_groups(pieces: &[Vec<char>]) -> (r: Option<Vec<u16>>)
    ensures
        r is Some <==> are_hex_groups(views(pieces@)),
        r is Some ==> wide(r->0@) == hex_groups(views(pieces@)),
{
    let ghost all = views(pieces@);
    let mut out: Vec<u16> = Vec::new();
    let mut i: usize = 0;
    while i < pieces.len()
        invariant
            i <= pieces.len(),
            all == views(pieces@),
            out.len() == i,
            wide(out@) == hex_groups(all.take(i as int)),
            forall|k: int| 0 <= k < i ==> hex_group(#[trigger] all[k]) is Some,
        decreases pieces.len() - i,
    {
        assert(all[i as int] == pieces[i as int]@);
        match parse_hex_group(&pieces[i]) {
            Some(value) => {
                let ghost before = wide(out@);
                out.push(value);
                i = i + 1;
                assert forall|k: int| 0 <= k < i implies wide(out@)[k] == hex_groups(
                    all.take(i as int),
                )[k] by {
                    if k < i - 1 {
                        assert(wide(out@)[k] == before[k]);
                        assert(before[k] == hex_groups(all.take(i as int - 1))[k]);
                    }
                }
                assert(wide(out@) =~= hex_groups(all.take(i as int)));
            },
            None => {
                return None;
            },
        }
    }
    assert(all.take(i as int) =~= all);
    Some(out)
}

fn parse_side(s: &[char], allow_ipv4: bool) -> (r: Option<Vec<u16>>)
    ensures
        r is Some <==> side_groups(s@, allow_ipv4) is Some,
        r is Some ==> wide(r->0@) == side_groups(s@, allow_ipv4)->0,
{
    if s.len() == 0 {
        let out: Vec<u16> = Vec::new();
        assert(wide(out@) =~= Seq::<nat>::empty());
        return Some(out);
    }
    let pieces = split_at_char(s, ':');
    let ghost all = split(s@, ':');
    let last: usize = pieces.len() - 1;
    assert(all.last() == pieces[last as int]@);
    if allow_ipv4 {
        match parse_ipv4(&pieces[last]) {
            Some(tail) => {
                let head = slice_subrange(pieces.as_slice(), 0, last);
                assert(views(head@) =~= all.drop_last());
                match parse_hex_groups(head) {
                    Some(mut groups) => {
                        let ghost before = wide(groups@);
                        groups.push((tail / 0x10000) as u16);
                        groups.push((tail % 0x10000) as u16);
                        assert(wide(groups@) =~= before.push((tail / 0x10000) as nat).push(
                            (tail % 0x10000) as nat,
                        ));
                        return Some(groups);
                    },
                    None => {
                        return None;
                    },
                }
            },
            None => {},
        }
    }
    parse_hex_groups(&pieces)
}

proof fn double_colon_at(s: Seq<char>, i: int)
    requires
        0 <= i <= s.len(),
        forall|k: int| 0 <= k < i && k + 1 < s.len() ==> !(s[k] == ':' && #[trigger] s[k + 1] == ':'),
        i < s.len() ==> i + 1 < s.len() && s[i] == ':' && s[i + 1] == ':',
    ensures
        double_colon(s) == i,
    decreases s.len(),
{
    if s.len() > 0 && i > 0 {
        if s.len() >= 2 {
            assert(!(s[0] == ':' && s[0int + 1] == ':'));
        }
        let rest = s.skip(1);
        assert forall|k: int| 0 <= k < i - 1 && k + 1 < rest.len() implies !(rest[k] == ':'
            && #[trigger] rest[k + 1] == ':') by {
            assert(!(s[k + 1] == ':' && s[k + 1 + 1] == ':'));
        }
        double_colon_at(rest, i - 1);
    }
}

proof fn double_colon_bound(s: Seq<char>)
    ensures
        0 <= double_colon(s) <= s.len(),
        double_colon(s) < s.len() ==> double_colon(s) + 2 <= s.len(),
    decreases s.len(),
{
    if s.len() > 0 {
        double_colon_bound(s.skip(1));
    }
}

fn find_double_colon(s: &[char]) -> (r: usize)
    ensures
        r == double_colon(s@),
        r <= s.len(),
        r < s.len() ==> r + 2 <= s.len(),
{
    let mut i: usize = 0;
    while i < s.len() && !(i + 1 < s.len() && s[i] == ':' && s[i + 1] == ':')
        invariant
            i <= s.len(),
            forall|k: int|
                0 <= k < i && k + 1 < s@.len() ==> !(s@[k] == ':' && #[trigger] s@[k + 1] == ':'),
        decreases s.len() - i,
    {
        i = i + 1;
    }
    proof {
        double_colon_at(s@, i as int);
    }
    i
}

spec fn power16(k: nat) -> nat
    decreases k,
{
    if k == 0 {
        1
    } else {
        power16((k - 1) as nat) * 0x10000
    }
}

proof fn groups_value_bound(groups: Seq<nat>)
    requires
        forall|i: int| 0 <= i < groups.len() ==> #[trigger] groups[i] < 0x10000,
    ensures
        groups_value(groups) < power16(groups.len()),
    decreases groups.len(),
{
    if groups.len() > 0 {
        groups_value_bound(groups.drop_last());
        assert(groups_value(groups.drop_last()) * 0x10000 + groups.last() < power16(
            (groups.len() - 1) as nat,
        ) * 0x10000) by (nonlinear_arith)
            requires
                groups_value(groups.drop_last()) < power16((groups.len() - 1) as nat),
                groups.last() < 0x10000,
        ;
    }
}

/// The address that eight groups spell.
fn fold_groups(groups: &[u16]) -> (r: u128)
    requires
        groups.len() == 8,
    ensures
        r == groups_value(wide(groups@)),
{
    let ghost all = wide(groups@);
    let mut value: u128 = 0;
    let mut i: usize = 0;
    while i < 8
        invariant
            i <= 8,
            groups.len() == 8,
            all == wide(groups@),
            value == groups_value(all.take(i as int)),
        decreases 8 - i,
    {
        proof {
            let next = all.take(i as int + 1);
            assert(next.drop_last() == all.take(i as int));
            assert(next.last() == groups@[i as int]);
            groups_value_bound(next);
            reveal_with_fuel(power16, 9);
        }
        value = value * 0x10000 + groups[i] as u128;
        i = i + 1;
    }
    assert(all.take(i as int) =~= all);
    value
}

/// Reads an IPv6 address.
pub fn parse_ipv6(s: &[char]) -> (r: Option<u128>)
    ensures
        r is Some <==> ipv6(s@) is Some,
        r is Some ==> r->0 == ipv6(s@)->0,
{
    let at: usize = find_double_colon(s);
    if at == s.len() {
        match parse_side(s, true) {
            Some(groups) => {
                assert(wide(groups@).len() == groups@.len());
                if groups.len() == 8 {
                    Some(fold_groups(&groups))
                } else {
                    None
                }
            },
            None => None,
        }
    } else {
        assert(s@.subrange(0, at as int) == s@.take(at as int));
        assert(s@.subrange(at as int + 2, s@.len() as int) == s@.skip(at as int + 2));
        let head = parse_side(slice_subrange(s, 0, at), false);
        let tail = parse_side(slice_subrange(s, at + 2, s.len()), true);
        match (head, tail) {
            (Some(h), Some(t)) => {
                let ghost hw = wide(h@);
                let ghost tw = wide(t@);
                if h.len() > 7 || t.len() > 7 - h.len() {
                    return None;
                }
                let mut groups: Vec<u16> = Vec::new();
                let mut i: usize = 0;
                while i < h.len()
                    invariant
                        i <= h.len(),
                        groups@ == h@.take(i as int),
                    decreases h.len() - i,
                {
                    groups.push(h[i]);
                    i = i + 1;
                    assert(h@.take(i as int) =~= h@.take(i as int - 1).push(h@[i as int - 1]));
                }
                assert(h@.take(i as int) =~= h@);
                let zeros: usize = 8 - h.len() - t.len();
                let ghost gap = Seq::new(zeros as nat, |k: int| 0u16);
                let mut j: usize = 0;
                while j < zeros
                    invariant
                        j <= zeros,
                        gap == Seq::new(zeros as nat, |k: int| 0u16),
                        groups@ == h@ + gap.take(j as int),
                    decreases zeros - j,
                {
                    groups.push(0);
                    j = j + 1;
                    assert(groups@ =~= h@ + gap.take(j as int));
                }
                assert(gap.take(j as int) =~= gap);
                let mut k: usize = 0;
                assert(groups@ =~= h@ + gap + t@.take(0));
                while k < t.len()
                    invariant
                        k <= t.len(),
                        groups@ == h@ + gap + t@.take(k as int),
                    decreases t.len() - k,
                {
                    groups.push(t[k]);
                    k = k + 1;
                    assert(groups@ =~= h@ + gap + t@.take(k as int));
                }
                assert(t@.take(k as int) =~= t@);
                assert(wide(groups@) =~= hw + Seq::new(zeros as nat, |i: int| 0nat) + tw);
                Some(fold_groups(&groups))
            },
            _ => None,
        }
    }
}

// ---- addresses, networks, sockets ----------------------------------------------------

/// The address that a text spells.
pub open spec fn address(s: Seq<char>) -> Option<IpAddr> {
    if ipv4(s) is Some {
        Some(IpAddr::V4(ipv4(s)->0 as u32))
    } else if ipv6(s) is Some {
        Some(IpAddr::V6(ipv6(s)->0 as u128))
    } else {
        None
    }
}

pub fn parse_address(s: &[char]) -> (r: Option<IpAddr>)
    ensures
        r == address(s@),
{
    match parse_ipv4(s) {
        Some(value) => Some(IpAddr::V4(value)),
        None => match parse_ipv6(s) {
            Some(value) => Some(IpAddr::V6(value)),
            None => None,
        },
    }
}

impl IpAddr {
    /// Reads an address of either family.
    pub fn parse(text: &str) -> (r: Option<IpAddr>)
        ensures
            r == address(text@),
    {
        let chars = to_chars(text);
        parse_address(&chars)
    }
}

pub open spec fn shifted(value: nat, bits: nat) -> nat {
    value / pow2(bits)
}

/// Whether an address belongs to the network: it is of the same family and agrees with the
/// base on the leading bits.
pub open spec fn in_network(network: IpNetwork, address: IpAddr) -> bool {
    match (network.base, address) {
        (IpAddr::V4(base), IpAddr::V4(value)) => {
            &&& network.prefix <= 32
            &&& shifted(base as nat, (32 - network.prefix) as nat) == shifted(
                value as nat,
                (32 - network.prefix) as nat,
            )
        },
        (IpAddr::V6(base), IpAddr::V6(value)) => {
            &&& network.prefix <= 128
            &&& shifted(base as nat, (128 - network.prefix) as nat) == shifted(
                value as nat,
                (128 - network.prefix) as nat,
            )
        },
        _ => false,
    }
}

/// The leading bits of an IPv4 address, as a number.
fn head32(value: u32, drop: u32) -> (r: u32)
    requires
        drop <= 32,
    ensures
        r == shifted(value as nat, drop as nat),
{
    if drop == 32 {
        proof {
            lemma2_to64();
            assert(value as nat / 0x100000000nat == 0) by (nonlinear_arith)
                requires
                    value < 0x100000000,
            ;
        }
        0
    } else {
        proof {
            lemma_u32_shr_is_div(value, drop);
        }
        value >> drop
    }
}

/// The leading bits of an IPv6 address, as a number.
fn head128(value: u128, drop: u32) -> (r: u128)
    requires
        drop <= 128,
    ensures
        r == shifted(value as nat, drop as nat),
{
    if drop == 128 {
        proof {
            lemma2_to64();
            lemma2_to64_rest();
            lemma_pow2_adds(64, 64);
            assert(pow2(128) == 0x10000000000000000 * 0x10000000000000000);
            assert(value as nat / pow2(128) == 0) by (nonlinear_arith)
                requires
                    (value as nat) < pow2(128),
            ;
        }
        0
    } else {
        proof {
            lemma_u128_shr_is_div(value, drop as u128);
        }
        value >> (drop as u128)
    }
}

/// The network that a text spells: an address, a slash and the number of leading bits.
pub open spec fn network(s: Seq<char>) -> Option<IpNetwork> {
    let at = index_of(s, '/');
    if at >= s.len() {
        None
    } else {
        match address(s.take(at)) {
            Some(base) => {
                let max: nat = match base {
                    IpAddr::V4(_) => 32,
                    IpAddr::V6(_) => 128,
                };
                match unsigned(s.skip(at + 1), max) {
                    Some(prefix) => Some(IpNetwork { base, prefix: prefix as u8 }),
                    None => None,
                }
            },
            None => None,
        }
    }
}

impl IpNetwork {
    /// The number of leading bits fits the family.
    pub open spec fn wf(&self) -> bool {
        match self.base {
            IpAddr::V4(_) => self.prefix <= 32,
            IpAddr::V6(_) => self.prefix <= 128,
        }
    }

    /// Reads a network in `address/prefix` notation.
    pub fn parse(text: &str) -> (r: Option<IpNetwork>)
        ensures
            r == network(text@),
            r is Some ==> r->0.wf(),
    {
        let chars = to_chars(text);
        IpNetwork::parse_chars(&chars)
    }

    pub fn parse_chars(chars: &[char]) -> (r: Option<IpNetwork>)
        ensures
            r == network(chars@),
            r is Some ==> r->0.wf(),
    {
        let at: usize = find_char(chars, '/');
        if at >= chars.len() {
            return None;
        }
        assert(chars@.subrange(0, at as int) == chars@.take(at as int));
        assert(chars@.subrange(at as int + 1, chars@.len() as int) == chars@.skip(at as int + 1));
        match parse_address(slice_subrange(chars, 0, at)) {
            Some(base) => {
                let max: u64 = match base {
                    IpAddr::V4(_) => 32,
                    IpAddr::V6(_) => 128,
                };
                match parse_unsigned(slice_subrange(chars, at + 1, chars.len()), max) {
                    Some(prefix) => Some(IpNetwork { base, prefix: prefix as u8 }),
                    None => None,
                }
            },
            None => None,
        }
    }

    /// Whether the address belongs to the network.
    pub fn contains(&self, address: IpAddr) -> (r: bool)
        ensures
            r == in_network(*self, address),
    {
        match (self.base, address) {
            (IpAddr::V4(base), IpAddr::V4(value)) => {
                if self.prefix > 32 {
                    return false;
                }
                let drop: u32 = 32 - self.prefix as u32;
                head32(base, drop) == head32(value, drop)
            },
            (IpAddr::V6(base), IpAddr::V6(value)) => {
                if self.prefix > 128 {
                    return false;
                }
                let drop: u32 = 128 - self.prefix as u32;
                head128(base, drop) == head128(value, drop)
            },
            _ => false,
        }
    }

    /// Whether some address belongs to both networks.
    pub fn overlaps(&self, other: &IpNetwork) -> (r: bool)
        requires
            self.wf(),
            other.wf(),
        ensures
            r <==> exists|address: IpAddr|
                in_network(*self, address) && in_network(*other, address),
    {
        if self.prefix <= other.prefix {
            let r = self.contains(other.base);
            proof {
                overlap_is_nesting(*self, *other);
            }
            r
        } else {
            let r = other.contains(self.base);
            proof {
                overlap_is_nesting(*other, *self);
            }
            r
        }
    }
}

/// A network and a narrower one share an address exactly when the base of the narrower one
/// belongs to the wider one.
pub proof fn overlap_is_nesting(wide: IpNetwork, narrow: IpNetwork)
    requires
        wide.wf(),
        narrow.wf(),
        wide.prefix <= narrow.prefix,
    ensures
        in_network(wide, narrow.base) <==> exists|address: IpAddr|
            in_network(wide, address) && in_network(narrow, address),
{
    if in_network(wide, narrow.base) {
        assert(in_network(narrow, narrow.base));
    }
    assert forall|address: IpAddr|
        in_network(wide, address) && in_network(narrow, address) implies in_network(
        wide,
        narrow.base,
    ) by {
        match (wide.base, narrow.base, address) {
            (IpAddr::V4(w), IpAddr::V4(n), IpAddr::V4(a)) => {
                coarser(
                    n as nat,
                    a as nat,
                    (32 - narrow.prefix) as nat,
                    (32 - wide.prefix) as nat,
                );
            },
            (IpAddr::V6(w), IpAddr::V6(n), IpAddr::V6(a)) => {
                coarser(
                    n as nat,
                    a as nat,
                    (128 - narrow.prefix) as nat,
                    (128 - wide.prefix) as nat,
                );
            },
            _ => {},
        }
    }
}

/// Two numbers that agree above some bit agree above every higher bit.
pub proof fn coarser(a: nat, b: nat, fine: nat, coarse: nat)
    requires
        fine <= coarse,
        shifted(a, fine) == shifted(b, fine),
    ensures
        shifted(a, coarse) == shifted(b, coarse),
{
    let extra = (coarse - fine) as nat;
    lemma_pow2_adds(fine, extra);
    lemma_pow2_pos(fine);
    lemma_pow2_pos(extra);
    vstd::arithmetic::div_mod::lemma_div_denominator(a as int, pow2(fine) as int, pow2(extra) as int);
    vstd::arithmetic::div_mod::lemma_div_denominator(b as int, pow2(fine) as int, pow2(extra) as int);
}

/// The socket address that a text spells: an IPv4 address, a colon and a port, or an IPv6
/// address in brackets, with an optional numeric scope, a colon and a port.
pub open spec fn socket(s: Seq<char>) -> Option<SocketAddr> {
    if s.len() > 0 && s[0] == '[' {
        let close = index_of(s, ']');
        if close + 1 < s.len() && s[close + 1] == ':' {
            let inner = s.subrange(1, close);
            let scope = index_of(inner, '%');
            let port = port_number(s.skip(close + 2));
            let zone = if scope == inner.len() {
                Some(0)
            } else {
                scope_number(inner.skip(scope + 1))
            };
            if zone is Some && ipv6(inner.take(scope)) is Some && port is Some {
                Some(
                    SocketAddr {
                        ip: IpAddr::V6(ipv6(inner.take(scope))->0 as u128),
                        port: port->0 as u16,
                        scope: zone->0 as u32,
                    },
                )
            } else {
                None
            }
        } else {
            None
        }
    } else {
        let at = index_of(s, ':');
        if at < s.len() && ipv4(s.take(at)) is Some && port_number(s.skip(at + 1)) is Some {
            Some(
                SocketAddr {
                    ip: IpAddr::V4(ipv4(s.take(at))->0 as u32),
                    port: port_number(s.skip(at + 1))->0 as u16,
                    scope: 0,
                },
            )
        } else {
            None
        }
    }
}

pub open spec fn port_number(s: Seq<char>) -> Option<nat> {
    if s.len() > 0 && all_digits(s) && number(s, 10) <= 65535 {
        Some(number(s, 10))
    } else {
        None
    }
}

pub open spec fn scope_number(s: Seq<char>) -> Option<nat> {
    if s.len() > 0 && all_digits(s) && number(s, 10) <= u32::MAX {
        Some(number(s, 10))
    } else {
        None
    }
}

impl SocketAddr {
    /// Reads a socket address.
    pub fn parse(text: &str) -> (r: Option<SocketAddr>)
        ensures
            r == socket(text@),
    {
        let s = to_chars(text);
        if s.len() > 0 && s[0] == '[' {
            let close: usize = find_char(&s, ']');
            if close >= s.len() || close + 1 >= s.len() || s[close + 1] != ':' {
                return None;
            }
            assert(close > 0);
            let inner = copy_chars(slice_subrange(s.as_slice(), 1, close));
            let scope: usize = find_char(&inner, '%');
            let mut zone: u64 = 0;
            if scope < inner.len() {
                assert(inner@.subrange(scope as int + 1, inner@.len() as int) == inner@.skip(
                    scope as int + 1,
                ));
                let number = slice_subrange(inner.as_slice(), scope + 1, inner.len());
                zone = match parse_digits(number, u32::MAX as u64) {
                    Some(value) => value,
                    None => {
                        return None;
                    },
                };
            }
            assert(inner@.subrange(0, scope as int) == inner@.take(scope as int));
            assert(s@.subrange(close as int + 2, s@.len() as int) == s@.skip(close as int + 2));
            let ip = parse_ipv6(slice_subrange(inner.as_slice(), 0, scope));
            let port = parse_digits(slice_subrange(s.as_slice(), close + 2, s.len()), 65535);
            match (ip, port) {
                (Some(ip), Some(port)) => Some(
                    SocketAddr { ip: IpAddr::V6(ip), port: port as u16, scope: zone as u32 },
                ),
                _ => None,
            }
        } else {
            let at: usize = find_char(&s, ':');
            if at >= s.len() {
                return None;
            }
            assert(s@.subrange(0, at as int) == s@.take(at as int));
            assert(s@.subrange(at as int + 1, s@.len() as int) == s@.skip(at as int + 1));
            let ip = parse_ipv4(slice_subrange(s.as_slice(), 0, at));
            let port = parse_digits(slice_subrange(s.as_slice(), at + 1, s.len()), 65535);
            match (ip, port) {
                (Some(ip), Some(port)) => Some(
                    SocketAddr { ip: IpAddr::V4(ip), port: port as u16, scope: 0 },
                ),
                _ => None,
            }
        }
    }
}

// ---- laws ----------------------------------------------------------------------------

/// A digit more makes a number ten, or sixteen, times as large and adds its value: the decimal
/// digits stand for zero to nine, the letters a to f, small or capital, for ten to fifteen.
pub proof fn digits_spell_numbers(s: Seq<char>, c: char, base: nat)
    requires
        is_hex(c),
    ensures
        number(Seq::<char>::empty(), base) == 0,
        number(s.push(c), base) == number(s, base) * base + (if 48 <= c as u32 <= 57 {
            c as u32 - 48
        } else if 97 <= c as u32 <= 102 {
            c as u32 - 87
        } else {
            c as u32 - 55
        }),
        is_digit(c) <==> 48 <= c as u32 <= 57,
{
    assert(s.push(c).drop_last() =~= s);
}

proof fn octet_is_written(n: nat)
    requires
        n <= 255,
    ensures
        octet(crate::text::decimal(n)) == Some(n),
        forall|i: int|
            0 <= i < crate::text::decimal(n).len() ==> #[trigger] crate::text::decimal(n)[i] != '.',
{
    let text = crate::text::decimal(n);
    crate::linux_capture::decimal_spells(n);
    reveal_with_fuel(crate::text::decimal, 4);
    assert(1 <= text.len() <= 3);
    assert forall|i: int| 0 <= i < text.len() implies #[trigger] text[i] != '.' by {
        assert(is_digit(text[i]));
    }
}

/// An IPv4 address in decimal octets with dots between them.
pub open spec fn dotted_quad(a: u8, b: u8, c: u8, d: u8) -> Seq<char> {
    crate::text::decimal(a as nat).push('.') + (crate::text::decimal(b as nat).push('.') + (
    crate::text::decimal(c as nat).push('.') + crate::text::decimal(d as nat)))
}

/// An IPv4 address that is written in decimal octets, the highest first, is read as the number that
/// they spell.
pub proof fn written_addresses_are_read(a: u8, b: u8, c: u8, d: u8)
    ensures
        ipv4(dotted_quad(a, b, c, d)) == Some(
            (a * 0x1000000 + b * 0x10000 + c * 0x100 + d) as nat,
        ),
        address(dotted_quad(a, b, c, d)) == Some(
            IpAddr::V4((a * 0x1000000 + b * 0x10000 + c * 0x100 + d) as u32),
        ),
{
    let (ta, tb) = (crate::text::decimal(a as nat), crate::text::decimal(b as nat));
    let (tc, td) = (crate::text::decimal(c as nat), crate::text::decimal(d as nat));
    octet_is_written(a as nat);
    octet_is_written(b as nat);
    octet_is_written(c as nat);
    octet_is_written(d as nat);
    crate::text::the_first_piece_ends_at_the_separator(td, '.', Seq::empty());
    crate::text::the_first_piece_ends_at_the_separator(tc, '.', td);
    crate::text::the_first_piece_ends_at_the_separator(tb, '.', tc.push('.') + td);
    crate::text::the_first_piece_ends_at_the_separator(
        ta,
        '.',
        tb.push('.') + (tc.push('.') + td),
    );
    assert(split(dotted_quad(a, b, c, d), '.') =~= seq![ta, tb, tc, td]);
}

/// An IPv4 address has exactly four octets of one to three decimal digits, none of which is beyond
/// 255 or starts with a zero that could be left out.
pub proof fn addresses_have_four_octets(s: Seq<char>, i: int)
    requires
        ipv4(s) is Some,
        0 <= i < 4,
    ensures
        ({
            let pieces = split(s, '.');
            &&& pieces.len() == 4
            &&& 1 <= pieces[i].len() <= 3
            &&& pieces[i].len() > 1 ==> pieces[i][0] != '0'
            &&& number(pieces[i], 10) <= 255
            &&& forall|k: int|
                0 <= k < pieces[i].len() ==> 48 <= (#[trigger] pieces[i][k]) as u32 <= 57
        }),
{
    let pieces = split(s, '.');
    assert(octet(pieces[i]) is Some) by {
        assert(i == 0 || i == 1 || i == 2 || i == 3);
    }
    assert forall|k: int| 0 <= k < pieces[i].len() implies 48 <= (
    #[trigger] pieces[i][k]) as u32 <= 57 by {
        assert(is_digit(pieces[i][k]));
    }
}

/// The characters that addresses are written with.
pub open spec fn address_char(c: char) -> bool {
    is_hex(c) || c == '.' || c == ':'
}

proof fn ipv4_is_digits_and_dots(s: Seq<char>)
    requires
        ipv4(s) is Some,
    ensures
        s.len() > 0,
        forall|i: int| 0 <= i < s.len() ==> address_char(#[trigger] s[i]),
{
    let pieces = split(s, '.');
    assert forall|i: int| 0 <= i < s.len() implies address_char(#[trigger] s[i]) by {
        if s[i] != '.' {
            crate::text::characters_stand_in_pieces(s, '.', i);
            let (p, k) = choose|p: int, k: int|
                0 <= p < pieces.len() && 0 <= k < pieces[p].len() && #[trigger] pieces[p][k]
                    == s[i];
            addresses_have_four_octets(s, p);
        }
    }
}

proof fn side_is_hex_and_colons(s: Seq<char>, allow_ipv4: bool)
    requires
        side_groups(s, allow_ipv4) is Some,
    ensures
        forall|i: int| 0 <= i < s.len() ==> address_char(#[trigger] s[i]),
{
    let pieces = split(s, ':');
    assert forall|i: int| 0 <= i < s.len() implies address_char(#[trigger] s[i]) by {
        if s[i] != ':' {
            crate::text::characters_stand_in_pieces(s, ':', i);
            let (p, k) = choose|p: int, k: int|
                0 <= p < pieces.len() && 0 <= k < pieces[p].len() && #[trigger] pieces[p][k]
                    == s[i];
            if allow_ipv4 && ipv4(pieces.last()) is Some {
                if p < pieces.len() - 1 {
                    assert(pieces.drop_last()[p] == pieces[p]);
                    assert(hex_group(pieces.drop_last()[p]) is Some);
                    assert(is_hex(pieces[p][k]));
                } else {
                    ipv4_is_digits_and_dots(pieces.last());
                }
            } else {
                assert(hex_group(pieces[p]) is Some);
                assert(is_hex(pieces[p][k]));
            }
        }
    }
}

/// The text of an address holds hexadecimal digits, dots and colons, and nothing else.
pub proof fn addresses_are_digits_dots_and_colons(s: Seq<char>)
    requires
        address(s) is Some,
    ensures
        s.len() > 0,
        forall|i: int| 0 <= i < s.len() ==> address_char(#[trigger] s[i]),
{
    if ipv4(s) is Some {
        ipv4_is_digits_and_dots(s);
    } else {
        let at = double_colon(s);
        double_colon_bound(s);
        if at == s.len() {
            side_is_hex_and_colons(s, true);
        } else {
            let head = s.take(at);
            let tail = s.skip(at + 2);
            side_is_hex_and_colons(head, false);
            side_is_hex_and_colons(tail, true);
            double_colon_is_there(s);
            assert forall|i: int| 0 <= i < s.len() implies address_char(#[trigger] s[i]) by {
                if i < at {
                    assert(head[i] == s[i]);
                } else if i >= at + 2 {
                    assert(tail[i - at - 2] == s[i]);
                }
            }
        }
    }
}

proof fn double_colon_is_there(s: Seq<char>)
    requires
        double_colon(s) < s.len(),
    ensures
        double_colon(s) + 2 <= s.len(),
        s[double_colon(s)] == ':',
        s[double_colon(s) + 1] == ':',
    decreases s.len(),
{
    double_colon_bound(s);
    if !(s.len() >= 2 && s[0] == ':' && s[1] == ':') {
        let rest = s.skip(1);
        double_colon_is_there(rest);
        double_colon_bound(rest);
        assert(rest[double_colon(rest)] == s[double_colon(s)]);
        assert(rest[double_colon(rest) + 1] == s[double_colon(s) + 1]);
    }
}

proof fn blocks_are_intervals(base: int, value: int, size: int)
    requires
        0 <= base,
        0 <= value,
        size > 0,
    ensures
        base / size == value / size <==> base - base % size <= value < base - base % size + size,
{
    vstd::arithmetic::div_mod::lemma_fundamental_div_mod(base, size);
    vstd::arithmetic::div_mod::lemma_fundamental_div_mod(value, size);
    if base - base % size <= value < base - base % size + size {
        let q = base / size;
        assert(base - base % size == q * size) by (nonlinear_arith)
            requires
                base == size * q + base % size,
        ;
        vstd::arithmetic::div_mod::lemma_fundamental_div_mod_converse(
            value,
            size,
            q,
            value - q * size,
        );
    }
}

/// A network holds a block of addresses: as many as the bits behind the prefix can tell apart, from
/// the base with these bits cleared on. An address of the other family is in none.
pub proof fn networks_are_blocks_of_addresses(base: u32, wide: u128, prefix: u8, x: u32, y: u128)
    requires
        prefix <= 32,
    ensures
        ({
            let size = pow2((32 - prefix) as nat) as int;
            let block = IpNetwork { base: IpAddr::V4(base), prefix };
            let first = base as int - base as int % size;
            &&& size > 0
            &&& in_network(block, IpAddr::V4(x)) <==> first <= x < first + size
            &&& !in_network(block, IpAddr::V6(y))
            &&& prefix == 32 ==> (in_network(block, IpAddr::V4(x)) <==> x == base)
            &&& prefix == 0 ==> in_network(block, IpAddr::V4(x))
        }),
        ({
            let size = pow2((128 - prefix) as nat) as int;
            let block = IpNetwork { base: IpAddr::V6(wide), prefix };
            let first = wide as int - wide as int % size;
            &&& in_network(block, IpAddr::V6(y)) <==> first <= y < first + size
            &&& !in_network(block, IpAddr::V4(x))
        }),
{
    let small = (32 - prefix) as nat;
    let large = (128 - prefix) as nat;
    lemma_pow2_pos(small);
    lemma_pow2_pos(large);
    blocks_are_intervals(base as int, x as int, pow2(small) as int);
    blocks_are_intervals(wide as int, y as int, pow2(large) as int);
    vstd::arithmetic::power2::lemma2_to64();
    if prefix == 0 {
        assert(pow2(32) == 0x1_0000_0000);
        assert(base as int % 0x1_0000_0000 == base);
    }
    if prefix == 32 {
        assert(pow2(0) == 1);
        assert(base as int % 1 == 0);
    }
}

/// A network of IPv6 addresses of more than 32 leading bits is a block too, up to the single address
/// with all of them.
pub proof fn narrow_networks_are_blocks_of_addresses(base: u128, prefix: u8, value: u128)
    requires
        prefix <= 128,
    ensures
        ({
            let size = pow2((128 - prefix) as nat) as int;
            let block = IpNetwork { base: IpAddr::V6(base), prefix };
            let first = base as int - base as int % size;
            &&& size > 0
            &&& in_network(block, IpAddr::V6(value)) <==> first <= value < first + size
            &&& prefix == 128 ==> (in_network(block, IpAddr::V6(value)) <==> value == base)
        }),
{
    let bits = (128 - prefix) as nat;
    lemma_pow2_pos(bits);
    blocks_are_intervals(base as int, value as int, pow2(bits) as int);
    vstd::arithmetic::power2::lemma2_to64();
}

/// A network is an address, a slash and the number of leading bits, of which there are at most 32
/// for IPv4 and 128 for IPv6; an address alone is none.
pub proof fn networks_are_written_with_their_prefix(text: Seq<char>, prefix: nat)
    requires
        address(text) is Some,
    ensures
        network(text) is None,
        ({
            let written = text.push('/') + crate::text::decimal(prefix);
            let base = address(text)->0;
            &&& base is V4 && prefix <= 32 || base is V6 && prefix <= 128 ==> network(written)
                == Some(IpNetwork { base, prefix: prefix as u8 })
            &&& base is V4 && prefix > 32 || base is V6 && prefix > 128 ==> network(written) is None
        }),
{
    let digits = crate::text::decimal(prefix);
    let written = text.push('/') + digits;
    addresses_are_digits_dots_and_colons(text);
    assert forall|k: int| 0 <= k < text.len() implies #[trigger] text[k] != '/' by {
        assert(address_char(text[k]));
    }
    assert forall|k: int| 0 <= k < text.len() implies written[k] != '/' by {
        assert(written[k] == text[k]);
    }
    crate::text::index_of_first(text, '/', text.len() as int);
    crate::text::index_of_first(written, '/', text.len() as int);
    assert(written.take(text.len() as int) =~= text);
    assert(written.skip(text.len() as int + 1) =~= digits);
    crate::linux_capture::decimal_spells(prefix);
    assert(is_digit(digits[0]));
}

/// A socket address is an IPv4 address, a colon and a port of at most 65535.
pub proof fn sockets_are_written_with_their_port(text: Seq<char>, port: nat)
    requires
        ipv4(text) is Some,
    ensures
        ({
            let written = text.push(':') + crate::text::decimal(port);
            &&& port <= 65535 ==> socket(written) == Some(
                SocketAddr { ip: IpAddr::V4(ipv4(text)->0 as u32), port: port as u16, scope: 0 },
            )
            &&& port > 65535 ==> socket(written) is None
        }),
        socket(text) is None,
{
    let digits = crate::text::decimal(port);
    let written = text.push(':') + digits;
    ipv4_has_no_colon(text);
    assert forall|k: int| 0 <= k < text.len() implies written[k] != ':' by {
        assert(written[k] == text[k]);
    }
    crate::text::index_of_first(text, ':', text.len() as int);
    crate::text::index_of_first(written, ':', text.len() as int);
    assert(written.take(text.len() as int) =~= text);
    assert(written.skip(text.len() as int + 1) =~= digits);
    crate::linux_capture::decimal_spells(port);
    assert(written[0] == text[0]);
}

proof fn ipv4_has_no_colon(s: Seq<char>)
    requires
        ipv4(s) is Some,
    ensures
        s.len() > 0,
        s[0] != '[',
        forall|i: int| 0 <= i < s.len() ==> #[trigger] s[i] != ':',
{
    ipv4_is_digits_and_dots(s);
    assert(address_char(s[0]));
    let pieces = split(s, '.');
    assert forall|i: int| 0 <= i < s.len() implies #[trigger] s[i] != ':' by {
        if s[i] == ':' {
            crate::text::characters_stand_in_pieces(s, '.', i);
            let (p, k) = choose|p: int, k: int|
                0 <= p < pieces.len() && 0 <= k < pieces[p].len() && #[trigger] pieces[p][k]
                    == s[i];
            addresses_have_four_octets(s, p);
        }
    }
}

/// Whether a text is a group of an IPv6 address: one to four hexadecimal digits.
pub open spec fn group_text(s: Seq<char>) -> bool {
    1 <= s.len() <= 4 && forall|i: int|
        0 <= i < s.len() ==> '0' <= (#[trigger] s[i]) && s[i] <= '9' || 'a' <= s[i] && s[i] <= 'f'
            || 'A' <= s[i] && s[i] <= 'F'
}

/// Whether all texts are groups of an IPv6 address.
pub open spec fn group_texts(pieces: Seq<Seq<char>>) -> bool {
    forall|i: int| 0 <= i < pieces.len() ==> group_text(#[trigger] pieces[i])
}

proof fn group_texts_are_groups(pieces: Seq<Seq<char>>)
    requires
        group_texts(pieces),
    ensures
        are_hex_groups(pieces),
        hex_groups(pieces).len() == pieces.len(),
        forall|i: int| 0 <= i < pieces.len() ==> hex_groups(pieces)[i] == number(#[trigger] pieces[i], 16),
        forall|i: int, k: int|
            0 <= i < pieces.len() && 0 <= k < pieces[i].len() ==> #[trigger] pieces[i][k] != ':',
{
    assert forall|i: int| 0 <= i < pieces.len() implies hex_group(#[trigger] pieces[i]) is Some by {
        assert(group_text(pieces[i]));
        assert(all_hex(pieces[i]));
    }
    assert forall|i: int, k: int|
        0 <= i < pieces.len() && 0 <= k < pieces[i].len() implies #[trigger] pieces[i][k] != ':' by {
        assert(group_text(pieces[i]));
    }
}

proof fn glued_groups_hold_no_double_colon(pieces: Seq<Seq<char>>)
    requires
        pieces.len() > 0,
        forall|i: int| 0 <= i < pieces.len() ==> (#[trigger] pieces[i]).len() > 0,
        forall|i: int, k: int|
            0 <= i < pieces.len() && 0 <= k < pieces[i].len() ==> #[trigger] pieces[i][k] != ':',
    ensures
        glued(pieces, ':').len() > 0,
        glued(pieces, ':')[0] != ':',
        glued(pieces, ':').last() != ':',
        forall|k: int|
            0 <= k && k + 1 < glued(pieces, ':').len() ==> !(glued(pieces, ':')[k] == ':'
                && #[trigger] glued(pieces, ':')[k + 1] == ':'),
    decreases pieces.len(),
{
    let last = pieces.last();
    let n = pieces.len() - 1;
    assert(pieces[n].len() > 0);
    assert forall|k: int| 0 <= k < last.len() implies #[trigger] last[k] != ':' by {
        assert(pieces[n][k] != ':');
    }
    if pieces.len() > 1 {
        let front = pieces.drop_last();
        assert forall|i: int, k: int|
            0 <= i < front.len() && 0 <= k < front[i].len() implies #[trigger] front[i][k]
            != ':' by {
            assert(pieces[i][k] != ':');
        }
        assert forall|i: int| 0 <= i < front.len() implies (#[trigger] front[i]).len() > 0 by {
            assert(pieces[i].len() > 0);
        }
        glued_groups_hold_no_double_colon(front);
        let start = glued(front, ':');
        let whole = glued(pieces, ':');
        assert forall|k: int| 0 <= k && k + 1 < whole.len() implies !(whole[k] == ':'
            && #[trigger] whole[k + 1] == ':') by {
            if k + 1 < start.len() {
                assert(!(start[k] == ':' && start[k + 1] == ':'));
            } else if k + 1 > start.len() {
                assert(whole[k + 1] == last[k + 1 - start.len() - 1]);
            }
        }
    }
}

proof fn a_group_is_no_quad(piece: Seq<char>)
    requires
        group_text(piece),
    ensures
        ipv4(piece) is None,
{
    let one = seq![piece];
    assert forall|i: int, k: int| 0 <= i < one.len() && 0 <= k < one[i].len() implies #[trigger] one[i][k]
        != '.' by {
        assert(one[0] == piece);
    }
    glued_pieces_part_again(one, '.');
    assert(glued(one, '.') =~= piece);
}

/// The groups of a side that is written in full.
proof fn sides_are_their_groups(pieces: Seq<Seq<char>>, allow_ipv4: bool)
    requires
        group_texts(pieces),
    ensures
        side_groups(glued(pieces, ':'), allow_ipv4) == Some(hex_groups(pieces)),
{
    group_texts_are_groups(pieces);
    if pieces.len() == 0 {
        assert(hex_groups(pieces) =~= Seq::<nat>::empty());
    } else {
        glued_pieces_part_again(pieces, ':');
        assert(group_text(pieces[pieces.len() - 1]));
        a_group_is_no_quad(pieces.last());
        glued_groups_hold_no_double_colon(pieces);
    }
}

proof fn eight_groups_have_a_value(g: Seq<nat>)
    requires
        g.len() == 8,
    ensures
        groups_value(g) == ((((((g[0] * 65536 + g[1]) * 65536 + g[2]) * 65536 + g[3]) * 65536 + g[4])
            * 65536 + g[5]) * 65536 + g[6]) * 65536 + g[7],
{
    let g7 = g.drop_last();
    let g6 = g7.drop_last();
    let g5 = g6.drop_last();
    let g4 = g5.drop_last();
    let g3 = g4.drop_last();
    let g2 = g3.drop_last();
    let g1 = g2.drop_last();
    assert(groups_value(g1.drop_last()) == 0);
    assert(groups_value(g1) == g[0]);
    assert(groups_value(g2) == g[0] * 65536 + g[1]);
    assert(groups_value(g3) == groups_value(g2) * 65536 + g[2]);
    assert(groups_value(g4) == groups_value(g3) * 65536 + g[3]);
    assert(groups_value(g5) == groups_value(g4) * 65536 + g[4]);
    assert(groups_value(g6) == groups_value(g5) * 65536 + g[5]);
    assert(groups_value(g7) == groups_value(g6) * 65536 + g[6]);
}

/// Eight groups with colons between them are an IPv6 address: each is sixteen bits, in network
/// order. Any other number of them is none.
pub proof fn eight_groups_are_an_address(pieces: Seq<Seq<char>>)
    requires
        pieces.len() > 0,
        group_texts(pieces),
    ensures
        pieces.len() == 8 ==> ipv6(glued(pieces, ':')) == Some(
            ((((((((number(pieces[0], 16) * 65536 + number(pieces[1], 16)) * 65536 + number(
                pieces[2],
                16,
            )) * 65536 + number(pieces[3], 16)) * 65536 + number(pieces[4], 16)) * 65536 + number(
                pieces[5],
                16,
            )) * 65536 + number(pieces[6], 16)) * 65536 + number(pieces[7], 16)) as nat),
        ),
        pieces.len() != 8 ==> ipv6(glued(pieces, ':')) is None,
{
    let text = glued(pieces, ':');
    group_texts_are_groups(pieces);
    assert forall|i: int| 0 <= i < pieces.len() implies (#[trigger] pieces[i]).len() > 0 by {
        assert(group_text(pieces[i]));
    }
    glued_groups_hold_no_double_colon(pieces);
    double_colon_at(text, text.len() as int);
    sides_are_their_groups(pieces, true);
    if pieces.len() == 8 {
        eight_groups_have_a_value(hex_groups(pieces));
    }
}

/// Two colons stand for as many groups of zero as are left out, one at least: the address is the one
/// that is written with them. With eight groups or more beside them there is none.
pub proof fn left_out_groups_are_zero(head: Seq<Seq<char>>, tail: Seq<Seq<char>>)
    requires
        group_texts(head),
        group_texts(tail),
    ensures
        ({
            let text = glued(head, ':') + seq![':', ':'] + glued(tail, ':');
            let left_out = Seq::new((8 - head.len() - tail.len()) as nat, |i: int| seq!['0']);
            &&& head.len() + tail.len() <= 7 ==> ipv6(text) is Some && ipv6(text) == ipv6(
                glued(head + left_out + tail, ':'),
            )
            &&& head.len() + tail.len() > 7 ==> ipv6(text) is None
        }),
{
    let a = glued(head, ':');
    let b = glued(tail, ':');
    let text = a + seq![':', ':'] + b;
    let at = a.len() as int;
    group_texts_are_groups(head);
    group_texts_are_groups(tail);
    if head.len() > 0 {
        assert forall|i: int| 0 <= i < head.len() implies (#[trigger] head[i]).len() > 0 by {
            assert(group_text(head[i]));
        }
        glued_groups_hold_no_double_colon(head);
    }
    assert forall|k: int| 0 <= k < at && k + 1 < text.len() implies !(text[k] == ':'
        && #[trigger] text[k + 1] == ':') by {
        if k + 1 < at {
            assert(!(a[k] == ':' && a[k + 1] == ':'));
        } else {
            assert(text[k] == a.last());
        }
    }
    double_colon_at(text, at);
    assert(text.take(at) =~= a);
    assert(text.skip(at + 2) =~= b);
    sides_are_their_groups(head, false);
    sides_are_their_groups(tail, true);
    if head.len() + tail.len() <= 7 {
        let missing = (8 - head.len() - tail.len()) as nat;
        let left_out = Seq::new(missing, |i: int| seq!['0']);
        let whole = head + left_out + tail;
        assert forall|i: int| 0 <= i < whole.len() implies group_text(#[trigger] whole[i]) by {
            if i < head.len() {
                assert(whole[i] == head[i]);
            } else if i < head.len() + missing {
                assert(whole[i] == seq!['0']);
            } else {
                assert(whole[i] == tail[i - head.len() - missing]);
            }
        }
        digits_spell_numbers(Seq::empty(), '0', 16);
        assert(Seq::<char>::empty().push('0') =~= seq!['0']);
        group_texts_are_groups(whole);
        eight_groups_are_an_address(whole);
        let groups = hex_groups(head) + Seq::new(missing, |i: int| 0nat) + hex_groups(tail);
        assert(groups =~= hex_groups(whole)) by {
            assert forall|i: int| 0 <= i < 8 implies #[trigger] groups[i] == hex_groups(whole)[i] by {
                assert(hex_groups(whole)[i] == number(whole[i], 16));
                if i < head.len() {
                    assert(whole[i] == head[i]);
                } else if i < head.len() + missing {
                    assert(whole[i] == seq!['0']);
                } else {
                    assert(whole[i] == tail[i - head.len() - missing]);
                }
            }
        }
        eight_groups_have_a_value(groups);
    }
}

/// The last two groups of an IPv6 address can be written as an IPv4 address.
pub proof fn the_last_groups_can_be_a_quad(pieces: Seq<Seq<char>>, quad: Seq<char>)
    requires
        pieces.len() == 6,
        group_texts(pieces),
        ipv4(quad) is Some,
    ensures
        ipv6(glued(pieces.push(quad), ':')) == Some(
            ((((((number(pieces[0], 16) * 65536 + number(pieces[1], 16)) * 65536 + number(
                pieces[2],
                16,
            )) * 65536 + number(pieces[3], 16)) * 65536 + number(pieces[4], 16)) * 65536 + number(
                pieces[5],
                16,
            )) * 0x1_0000_0000 + ipv4(quad)->0) as nat,
        ),
{
    let all = pieces.push(quad);
    let text = glued(all, ':');
    group_texts_are_groups(pieces);
    ipv4_has_no_colon(quad);
    assert forall|i: int, k: int|
        0 <= i < all.len() && 0 <= k < all[i].len() implies #[trigger] all[i][k] != ':' by {
        if i < 6 {
            assert(all[i] == pieces[i]);
            assert(pieces[i][k] != ':');
        }
    }
    assert forall|i: int| 0 <= i < all.len() implies (#[trigger] all[i]).len() > 0 by {
        if i < 6 {
            assert(group_text(pieces[i]));
        }
    }
    glued_groups_hold_no_double_colon(all);
    double_colon_at(text, text.len() as int);
    glued_pieces_part_again(all, ':');
    assert(all.drop_last() =~= pieces);
    let tail = ipv4(quad)->0;
    let groups = hex_groups(pieces).push(tail / 0x10000).push(tail % 0x10000);
    assert(ipv6_groups(text) == Some(groups));
    eight_groups_have_a_value(groups);
}

} // verus!
