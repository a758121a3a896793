//! Rules on where clients come from: the map of networks to countries, regions and
//! autonomous systems, and what is denied or observed of them.
use vstd::prelude::*;
use vstd::slice::slice_subrange;
use vstd::utf8::{decode_utf8, encode_utf8, valid_utf8};

use sha2::Digest;

use crate::blocklist::http_parts;
use crate::blocklist::http_source_parts;
use crate::config::{CountryPolicyConfig, CountryView};
use crate::lists::{copy_list, has_u32, same_u32s};
use crate::names::alphanumeric;
use crate::net::{in_network, network, parse_unsigned, unsigned, IpAddr, IpNetwork};
use crate::policy::{ErrorView, PolicyError};
use crate::text::{byte_len, decimal, decode_text, find_char, has_prefix, index_of, is_text, joined,
    lines, lower, push_all, same, same_str, split_lines, split_words, strip_prefix, texts, to_chars,
    to_decimal, to_lower, to_text, to_upper, trim, trimmed, trimming_leaves_the_words, upper,
    utf8_fault, utf8_len, views, with_number, words};
use crate::text_set::TextSet;

verus! {

pub const MAX_COUNTRY_MAP_BYTES: u64 = 16_777_216;

pub const MAX_COUNTRY_MAP_LINE_BYTES: usize = 256;

pub const MAX_COUNTRY_SELECTORS: usize = 256;

pub open spec fn map_error(path: Seq<char>, reason: Seq<char>) -> ErrorView {
    ErrorView::InvalidCountryMap { path, reason }
}

// ---- codes ---------------------------------------------------------------------------

pub open spec fn letter(c: char) -> bool {
    ('a' <= c && c <= 'z') || ('A' <= c && c <= 'Z')
}

pub open spec fn region_char(c: char) -> bool {
    alphanumeric(c) || c == '-' || c == '_' || c == '.'
}

/// The code that a text spells: two letters for a country, up to 32 characters for a region;
/// codes are upper case.
pub open spec fn code(value: Seq<char>, region: bool) -> Option<Seq<char>> {
    let valid = if region {
        1 <= value.len() <= 32 && forall|i: int|
            0 <= i < value.len() ==> region_char(#[trigger] value[i])
    } else {
        value.len() == 2 && letter(value[0]) && letter(value[1])
    };
    if valid {
        Some(upper(value))
    } else {
        None
    }
}

fn is_letter(c: char) -> (r: bool)
    ensures
        r == letter(c),
{
    ('a' <= c && c <= 'z') || ('A' <= c && c <= 'Z')
}

/// Reads the code of a country.
pub fn country_code(value: &[char]) -> (r: Option<Vec<char>>)
    ensures
        r is Some <==> code(value@, false) is Some,
        r is Some ==> r->0@ == code(value@, false)->0,
{
    if value.len() == 2 && is_letter(value[0]) && is_letter(value[1]) {
        Some(to_upper(value))
    } else {
        None
    }
}

/// Reads the code of a region.
pub fn region_code(value: &[char]) -> (r: Option<Vec<char>>)
    ensures
        r is Some <==> code(value@, true) is Some,
        r is Some ==> r->0@ == code(value@, true)->0,
{
    if value.len() == 0 || value.len() > 32 {
        return None;
    }
    let mut i: usize = 0;
    while i < value.len()
        invariant
            i <= value.len(),
            forall|k: int| 0 <= k < i ==> region_char(#[trigger] value@[k]),
        decreases value.len() - i,
    {
        let c = value[i];
        if !(is_letter(c) || ('0' <= c && c <= '9') || c == '-' || c == '_' || c == '.') {
            assert(!region_char(value@[i as int]));
            return None;
        }
        i = i + 1;
    }
    Some(to_upper(value))
}

/// The number of an autonomous system, with or without its `AS`.
pub open spec fn system_number(value: Seq<char>) -> Option<u32> {
    let digits = if has_prefix(value, "AS"@) {
        value.skip(2)
    } else {
        value
    };
    match unsigned(digits, u32::MAX as nat) {
        Some(n) => if n != 0 {
            Some(n as u32)
        } else {
            None
        },
        None => None,
    }
}

pub fn asn_number(value: &[char]) -> (r: Option<u32>)
    ensures
        r == system_number(value@),
{
    proof {
        reveal_strlit("AS");
    }
    let parsed = match strip_prefix(value, "AS") {
        Some(rest) => parse_unsigned(&rest, u32::MAX as u64),
        None => parse_unsigned(value, u32::MAX as u64),
    };
    match parsed {
        Some(n) => {
            if n != 0 {
                Some(n as u32)
            } else {
                None
            }
        },
        None => None,
    }
}

// ---- fingerprints --------------------------------------------------------------------

/// The FNV-1a hash of the bytes; it only indicates change.
pub open spec fn fingerprint(bytes: Seq<u8>) -> u64
    decreases bytes.len(),
{
    if bytes.len() == 0 {
        0xcbf29ce484222325
    } else {
        (fingerprint(bytes.drop_last()) ^ (bytes.last() as u64)).wrapping_mul(0x100000001b3)
    }
}

pub fn source_fingerprint(contents: &[u8]) -> (r: u64)
    ensures
        r == fingerprint(contents@),
{
    let mut hash: u64 = 0xcbf29ce484222325;
    let mut i: usize = 0;
    while i < contents.len()
        invariant
            i <= contents.len(),
            hash == fingerprint(contents@.take(i as int)),
        decreases contents.len() - i,
    {
        assert(contents@.take(i as int + 1).drop_last() =~= contents@.take(i as int));
        hash = (hash ^ (contents[i] as u64)).wrapping_mul(0x100000001b3);
        i = i + 1;
    }
    assert(contents@.take(i as int) =~= contents@);
    hash
}

/// The SHA-256 digest of the bytes, as `sha2` computes it.
pub uninterp spec fn sha256(bytes: Seq<u8>) -> Seq<u8>;

/// `sha2::Sha256::digest`: the 32 bytes of the digest, which depend on the input alone.
#[verifier::external_body]
fn digest(bytes: &[u8]) -> (r: Vec<u8>)
    ensures
        r@ == sha256(bytes@),
        r@.len() == 32,
{
    sha2::Sha256::digest(bytes).to_vec()
}

pub open spec fn hex_char(digit: int) -> char {
    if digit < 10 {
        (48 + digit) as char
    } else {
        (87 + digit) as char
    }
}

/// Two lower-case hexadecimal digits for each byte.
pub open spec fn hex(bytes: Seq<u8>) -> Seq<char> {
    Seq::new(
        2 * bytes.len(),
        |i: int|
            if i % 2 == 0 {
                hex_char(bytes[i / 2] as int / 16)
            } else {
                hex_char(bytes[i / 2] as int % 16)
            },
    )
}

fn to_hex_char(digit: u8) -> (r: char)
    requires
        digit < 16,
    ensures
        r == hex_char(digit as int),
{
    if digit < 10 {
        (48 + digit) as char
    } else {
        (87 + digit) as char
    }
}

/// The bytes in hexadecimal.
pub fn to_hex(bytes: &[u8]) -> (r: Vec<char>)
    ensures
        r@ == hex(bytes@),
{
    let ghost wanted = hex(bytes@);
    let mut out: Vec<char> = Vec::new();
    let mut i: usize = 0;
    assert(out@ =~= wanted.take(0));
    while i < bytes.len()
        invariant
            i <= bytes.len(),
            wanted == hex(bytes@),
            out@ == wanted.take(2 * i),
        decreases bytes.len() - i,
    {
        let byte: u8 = bytes[i];
        out.push(to_hex_char(byte / 16));
        out.push(to_hex_char(byte % 16));
        proof {
            assert((2 * i) / 2 == i && (2 * i) % 2 == 0);
            assert((2 * i + 1) / 2 == i && (2 * i + 1) % 2 == 1);
            assert(out@ =~= wanted.take(2 * (i + 1)));
        }
        i = i + 1;
    }
    assert(wanted.take(2 * i) =~= wanted);
    out
}

/// The SHA-256 digest of the contents in hexadecimal.
pub fn source_sha256(contents: &[u8]) -> (r: String)
    ensures
        r@ == hex(sha256(contents@)),
        r@.len() == 64,
{
    let bytes = digest(contents);
    let text = to_hex(&bytes);
    to_text(&text)
}

/// A digest in text form: 64 hexadecimal digits.
pub open spec fn digest_text(value: Seq<char>) -> bool {
    value.len() == 64 && crate::net::all_hex(value)
}

pub fn valid_sha256(value: &str) -> (r: bool)
    ensures
        r == digest_text(value@),
{
    let chars = to_chars(value);
    if chars.len() != 64 {
        return false;
    }
    let mut i: usize = 0;
    while i < chars.len()
        invariant
            i <= chars.len(),
            chars@ == value@,
            forall|k: int| 0 <= k < i ==> crate::net::is_hex(#[trigger] value@[k]),
        decreases chars.len() - i,
    {
        let c = chars[i];
        if !(('0' <= c && c <= '9') || ('a' <= c && c <= 'f') || ('A' <= c && c <= 'F')) {
            assert(!crate::net::is_hex(value@[i as int]));
            return false;
        }
        i = i + 1;
    }
    true
}

/// Whether two texts are the same but for ASCII case.
pub fn same_ignoring_case(a: &str, b: &str) -> (r: bool)
    ensures
        r == (lower(a@) == lower(b@)),
{
    let left = to_chars(a);
    let right = to_chars(b);
    let x = to_lower(&left);
    let y = to_lower(&right);
    same(&x, &y)
}

// ---- file facts ----------------------------------------------------------------------

/// Whether a map that was modified at one moment is recent enough at another. Moments are
/// nanoseconds from a common origin; a map from the future is not fresh.
pub open spec fn fresh(modified: int, now: int, max_age_secs: u64) -> bool {
    max_age_secs != 0 && modified <= now && now - modified <= max_age_secs * 1_000_000_000
}

pub fn country_map_is_fresh(modified: i128, now: i128, max_age_secs: u64) -> (r: bool)
    ensures
        r == fresh(modified as int, now as int, max_age_secs),
{
    if max_age_secs == 0 || modified > now {
        return false;
    }
    match now.checked_sub(modified) {
        Some(age) => age <= max_age_secs as i128 * 1_000_000_000,
        None => false,
    }
}

/// What is known of a file at one moment: its length, and when it was modified if that is
/// known.
#[derive(Clone, Copy, Debug, PartialEq, Eq, Structural)]
pub struct FileFacts {
    pub length: u64,
    pub modified: Option<i128>,
}

/// Whether a file changed between two looks at it.
pub open spec fn changed(first: FileFacts, last: FileFacts) -> bool {
    last.length != first.length || (first.modified is Some && last.modified != first.modified)
}

pub fn country_map_changed(initial: FileFacts, last: FileFacts) -> (r: bool)
    ensures
        r == changed(initial, last),
{
    last.length != initial.length || (initial.modified.is_some() && last.modified
        != initial.modified)
}

/// The longest configuration file that is read.
pub const MAX_CONFIG_BYTES: u64 = 1_048_576;

/// Why a configuration file is not read at all.
pub fn config_size_fault(file: FileFacts) -> (r: Option<&'static str>)
    ensures
        if file.length > MAX_CONFIG_BYTES {
            r is Some && r->0@ == "configuration exceeds 1 MiB"@
        } else {
            r is None
        },
{
    if file.length > MAX_CONFIG_BYTES {
        Some("configuration exceeds 1 MiB")
    } else {
        None
    }
}

/// Why a configuration that was read is not used.
pub fn config_change_fault(initial: FileFacts, last: FileFacts) -> (r: Option<&'static str>)
    ensures
        if changed(initial, last) {
            r is Some && r->0@ == "configuration changed while it was being read"@
        } else {
            r is None
        },
{
    if country_map_changed(initial, last) {
        Some("configuration changed while it was being read")
    } else {
        None
    }
}

// ---- the map -------------------------------------------------------------------------

/// One line of the map.
pub struct CountryEntry {
    pub country: Vec<char>,
    pub region: Option<Vec<char>>,
    pub asn: Option<u32>,
    pub network: IpNetwork,
}

/// The value of a line of the map.
pub struct PlaceView {
    pub country: Seq<char>,
    pub region: Option<Seq<char>>,
    pub asn: Option<u32>,
    pub network: IpNetwork,
}

impl View for CountryEntry {
    type V = PlaceView;

    open spec fn view(&self) -> PlaceView {
        PlaceView {
            country: self.country@,
            region: match self.region {
                Some(text) => Some(text@),
                None => None,
            },
            asn: self.asn,
            network: self.network,
        }
    }
}

pub open spec fn place_views(list: Seq<CountryEntry>) -> Seq<PlaceView> {
    Seq::new(list.len(), |i: int| list[i]@)
}

/// What a message about a line says.
pub open spec fn line_message(n: nat, rest: Seq<char>) -> Seq<char> {
    "line "@ + decimal(n) + rest
}

/// An optional field of a line: absent, or a dash for absent.
pub open spec fn given_field(fields: Seq<Seq<char>>, i: int) -> Option<Seq<char>> {
    if i < fields.len() && fields[i] != "-"@ {
        Some(fields[i])
    } else {
        None
    }
}

/// The place of a line with the given number, nothing for a line without content, or what is
/// wrong with it.
pub open spec fn map_line(line: Seq<char>, n: nat) -> Result<Option<PlaceView>, Seq<char>> {
    let body = trimmed(line.take(index_of(line, '#')));
    let fields = words(body);
    let region = given_field(fields, 2);
    let asn = given_field(fields, 3);
    if byte_len(line) > MAX_COUNTRY_MAP_LINE_BYTES {
        Err(
            line_message(
                n,
                " exceeds "@ + decimal(MAX_COUNTRY_MAP_LINE_BYTES as nat) + " bytes"@,
            ),
        )
    } else if body.len() == 0 {
        Ok(None)
    } else if fields.len() < 2 || fields.len() > 4 {
        Err(line_message(n, " must contain COUNTRY CIDR [REGION] [ASN]"@))
    } else if code(fields[0], false) is None {
        Err(line_message(n, " has an invalid country code"@))
    } else if network(fields[1]) is None {
        Err(line_message(n, " has an invalid CIDR"@))
    } else if region is Some && code(region->0, true) is None {
        Err(line_message(n, " has an invalid region"@))
    } else if asn is Some && system_number(asn->0) is None {
        Err(line_message(n, " has an invalid ASN"@))
    } else {
        Ok(
            Some(
                PlaceView {
                    country: code(fields[0], false)->0,
                    region: match region {
                        Some(text) => code(text, true),
                        None => None,
                    },
                    asn: match asn {
                        Some(text) => system_number(text),
                        None => None,
                    },
                    network: network(fields[1])->0,
                },
            ),
        )
    }
}

/// The places of the lines, in order; the first line that is refused refuses the map.
pub open spec fn map_places(all: Seq<Seq<char>>) -> Result<Seq<PlaceView>, Seq<char>>
    decreases all.len(),
{
    if all.len() == 0 {
        Ok(Seq::empty())
    } else {
        match map_places(all.drop_last()) {
            Err(reason) => Err(reason),
            Ok(places) => match map_line(all.last(), all.len()) {
                Err(reason) => Err(reason),
                Ok(None) => Ok(places),
                Ok(Some(place)) => Ok(places.push(place)),
            },
        }
    }
}

proof fn map_places_error_stays(all: Seq<Seq<char>>, n: int)
    requires
        0 <= n <= all.len(),
        map_places(all.take(n)) is Err,
    ensures
        map_places(all) == map_places(all.take(n)),
    decreases all.len(),
{
    if n == all.len() {
        assert(all.take(n) =~= all);
    } else {
        assert(all.drop_last().take(n) =~= all.take(n));
        map_places_error_stays(all.drop_last(), n);
    }
}

fn line_fault(n: u64, rest: &str) -> (r: String)
    ensures
        r@ == line_message(n as nat, rest@),
{
    let mut out = to_chars("line ");
    let number = to_decimal(n);
    push_all(&mut out, &number);
    let tail = to_chars(rest);
    push_all(&mut out, &tail);
    to_text(&out)
}

fn read_line(line: &[char], n: u64) -> (r: Result<Option<CountryEntry>, String>)
    ensures
        match map_line(line@, n as nat) {
            Err(reason) => r is Err && r->Err_0@ == reason,
            Ok(None) => r is Ok && r->Ok_0 is None,
            Ok(Some(place)) => r is Ok && r->Ok_0 is Some && r->Ok_0->0@ == place,
        },
{
    if utf8_len(line) > MAX_COUNTRY_MAP_LINE_BYTES {
        let limit = with_number(" exceeds ", MAX_COUNTRY_MAP_LINE_BYTES as u64, " bytes");
        return Err(line_fault(n, limit.as_str()));
    }
    let at: usize = find_char(line, '#');
    assert(line@.subrange(0, at as int) == line@.take(at as int));
    let body = trim(slice_subrange(line, 0, at));
    if body.len() == 0 {
        return Ok(None);
    }
    let fields = split_words(&body);
    let ghost all = words(body@);
    if fields.len() < 2 || fields.len() > 4 {
        return Err(line_fault(n, " must contain COUNTRY CIDR [REGION] [ASN]"));
    }
    assert(all[0] == fields[0]@ && all[1] == fields[1]@);
    let country = match country_code(&fields[0]) {
        Some(country) => country,
        None => {
            return Err(line_fault(n, " has an invalid country code"));
        },
    };
    let network = match IpNetwork::parse_chars(&fields[1]) {
        Some(network) => network,
        None => {
            return Err(line_fault(n, " has an invalid CIDR"));
        },
    };
    let mut region: Option<Vec<char>> = None;
    if fields.len() > 2 {
        assert(all[2] == fields[2]@);
        if !is_text(&fields[2], "-") {
            match region_code(&fields[2]) {
                Some(found) => {
                    region = Some(found);
                },
                None => {
                    return Err(line_fault(n, " has an invalid region"));
                },
            }
        }
    }
    let mut asn: Option<u32> = None;
    if fields.len() > 3 {
        assert(all[3] == fields[3]@);
        if !is_text(&fields[3], "-") {
            match asn_number(&fields[3]) {
                Some(found) => {
                    asn = Some(found);
                },
                None => {
                    return Err(line_fault(n, " has an invalid ASN"));
                },
            }
        }
    }
    Ok(Some(CountryEntry { country, region, asn, network }))
}

fn read_map(text: &[char]) -> (r: Result<Vec<CountryEntry>, String>)
    ensures
        match map_places(lines(text@)) {
            Err(reason) => r is Err && r->Err_0@ == reason,
            Ok(places) => r is Ok && place_views(r->Ok_0@) == places,
        },
{
    let list = split_lines(text);
    let ghost all = lines(text@);
    let mut out: Vec<CountryEntry> = Vec::new();
    let mut i: usize = 0;
    assert(place_views(out@) =~= Seq::<PlaceView>::empty());
    while i < list.len()
        invariant
            i <= list.len(),
            all == views(list@),
            all == lines(text@),
            map_places(all.take(i as int)) == Ok::<Seq<PlaceView>, Seq<char>>(place_views(out@)),
        decreases list.len() - i,
    {
        let ghost next = all.take(i as int + 1);
        assert(next.drop_last() =~= all.take(i as int));
        assert(next.last() == list[i as int]@);
        match read_line(&list[i], i as u64 + 1) {
            Err(reason) => {
                proof {
                    map_places_error_stays(all, i as int + 1);
                }
                return Err(reason);
            },
            Ok(None) => {},
            Ok(Some(place)) => {
                let ghost before = place_views(out@);
                out.push(place);
                assert(place_views(out@) =~= before.push(place@));
            },
        }
        i = i + 1;
    }
    assert(all.take(i as int) =~= all);
    Ok(out)
}

// ---- selectors -----------------------------------------------------------------------

/// The position of the first text that is no code; the length where all are.
pub open spec fn first_bad_code(list: Seq<Seq<char>>, region: bool) -> int
    decreases list.len(),
{
    if list.len() == 0 {
        0
    } else {
        let before = first_bad_code(list.drop_last(), region);
        if before < list.len() - 1 {
            before
        } else if code(list.last(), region) is Some {
            list.len() as int
        } else {
            list.len() - 1
        }
    }
}

/// The codes of a list.
pub open spec fn codes(list: Seq<Seq<char>>, region: bool) -> Set<Seq<char>>
    decreases list.len(),
{
    if list.len() == 0 {
        Set::empty()
    } else {
        codes(list.drop_last(), region).insert(code(list.last(), region)->0)
    }
}

proof fn first_bad_code_stays(list: Seq<Seq<char>>, region: bool, i: int)
    requires
        0 <= i < list.len(),
        first_bad_code(list.take(i + 1), region) == i,
    ensures
        first_bad_code(list, region) == i,
    decreases list.len(),
{
    if list.len() == i + 1 {
        assert(list.take(i + 1) =~= list);
    } else {
        assert(list.drop_last().take(i + 1) =~= list.take(i + 1));
        first_bad_code_stays(list.drop_last(), region, i);
    }
}

/// Collects the codes of a list, or finds the first text that is none.
fn collect_codes(list: &[String], region: bool) -> (r: Result<TextSet, usize>)
    ensures
        match r {
            Ok(set) => first_bad_code(texts(list@), region) == list@.len() && set.wf() && set@
                == codes(texts(list@), region),
            Err(i) => i < list@.len() && first_bad_code(texts(list@), region) == i,
        },
{
    let ghost all = texts(list@);
    let mut set = TextSet::new();
    let mut i: usize = 0;
    while i < list.len()
        invariant
            i <= list.len(),
            all == texts(list@),
            set.wf(),
            first_bad_code(all.take(i as int), region) == i,
            set@ == codes(all.take(i as int), region),
        decreases list.len() - i,
    {
        let chars = to_chars(list[i].as_str());
        let ghost next = all.take(i as int + 1);
        assert(next.drop_last() =~= all.take(i as int));
        assert(next.last() == chars@);
        let found = if region {
            region_code(&chars)
        } else {
            country_code(&chars)
        };
        match found {
            Some(text) => {
                set.insert(&text);
            },
            None => {
                proof {
                    first_bad_code_stays(all, region, i as int);
                }
                return Err(i);
            },
        }
        i = i + 1;
    }
    assert(all.take(i as int) =~= all);
    Ok(set)
}

fn sets_meet(a: &TextSet, b: &TextSet) -> (r: bool)
    requires
        a.wf(),
        b.wf(),
    ensures
        r == exists|t: Seq<char>| a@.contains(t) && b@.contains(t),
{
    let ghost all = views(a.items@);
    let mut i: usize = 0;
    while i < a.items.len()
        invariant
            i <= a.items.len(),
            b.wf(),
            all == views(a.items@),
            forall|k: int| 0 <= k < i ==> !b@.contains(#[trigger] all[k]),
        decreases a.items.len() - i,
    {
        assert(all[i as int] == a.items[i as int]@);
        if b.contains(&a.items[i]) {
            assert(a@.contains(all[i as int]));
            return true;
        }
        i = i + 1;
    }
    assert forall|t: Seq<char>| a@.contains(t) implies !b@.contains(t) by {
        let k = choose|k: int| 0 <= k < all.len() && all[k] == t;
        assert(!b@.contains(all[k]));
    }
    false
}

fn numbers_meet(a: &[u32], b: &[u32]) -> (r: bool)
    ensures
        r == exists|n: u32| a@.contains(n) && b@.contains(n),
{
    let mut i: usize = 0;
    while i < a.len()
        invariant
            i <= a.len(),
            forall|k: int| 0 <= k < i ==> !b@.contains(#[trigger] a@[k]),
        decreases a.len() - i,
    {
        if has_u32(b, a[i]) {
            assert(a@.contains(a@[i as int]));
            return true;
        }
        i = i + 1;
    }
    assert forall|n: u32| a@.contains(n) implies !b@.contains(n) by {
        let k = choose|k: int| 0 <= k < a@.len() && a@[k] == n;
        assert(!b@.contains(a@[k]));
    }
    false
}

/// What places are selected by: countries, regions and autonomous systems.
pub struct SelectorView {
    pub countries: Set<Seq<char>>,
    pub regions: Set<Seq<char>>,
    pub asns: Seq<u32>,
}

pub struct Selector {
    pub countries: TextSet,
    pub regions: TextSet,
    pub asns: Vec<u32>,
}

impl View for Selector {
    type V = SelectorView;

    open spec fn view(&self) -> SelectorView {
        SelectorView { countries: self.countries@, regions: self.regions@, asns: self.asns@ }
    }
}

/// Whether a place is selected.
pub open spec fn selected(selector: SelectorView, place: PlaceView) -> bool {
    ||| selector.countries.contains(place.country)
    ||| place.region is Some && selector.regions.contains(place.region->0)
    ||| place.asn is Some && selector.asns.contains(place.asn->0)
}

impl Selector {
    pub open spec fn wf(&self) -> bool {
        self.countries.wf() && self.regions.wf()
    }

    fn selects(&self, place: &CountryEntry) -> (r: bool)
        requires
            self.wf(),
        ensures
            r == selected(self@, place@),
    {
        if self.countries.contains(&place.country) {
            return true;
        }
        match &place.region {
            Some(region) => {
                if self.regions.contains(region) {
                    return true;
                }
            },
            None => {},
        }
        match place.asn {
            Some(asn) => has_u32(&self.asns, asn),
            None => false,
        }
    }
}

// ---- checking the configuration ------------------------------------------------------

/// No map and no selector.
pub open spec fn unconfigured(config: CountryView) -> bool {
    config.map_path is None && config.deny.len() == 0 && config.observe.len() == 0
        && config.deny_regions.len() == 0 && config.observe_regions.len() == 0
        && config.deny_asns.len() == 0 && config.observe_asns.len() == 0
}

pub open spec fn deny_selector(config: CountryView) -> SelectorView {
    SelectorView {
        countries: codes(config.deny, false),
        regions: codes(config.deny_regions, true),
        asns: config.deny_asns,
    }
}

pub open spec fn observe_selector(config: CountryView) -> SelectorView {
    SelectorView {
        countries: codes(config.observe, false),
        regions: codes(config.observe_regions, true),
        asns: config.observe_asns,
    }
}

pub open spec fn texts_meet(a: Set<Seq<char>>, b: Set<Seq<char>>) -> bool {
    exists|t: Seq<char>| a.contains(t) && b.contains(t)
}

/// What is wrong with the selectors and the pin of a configuration, before any map is read.
pub open spec fn config_fault(config: CountryView) -> Option<ErrorView> {
    let path = config.map_path->0;
    if config.map_path is None {
        Some(map_error("<none>"@, "map_path is required when country rules are configured"@))
    } else if first_bad_code(config.deny, false) < config.deny.len() {
        Some(
            map_error(
                path,
                "invalid deny country code: "@ + config.deny[first_bad_code(config.deny, false)],
            ),
        )
    } else if first_bad_code(config.observe, false) < config.observe.len() {
        Some(
            map_error(
                path,
                "invalid observe country code: "@ + config.observe[first_bad_code(
                    config.observe,
                    false,
                )],
            ),
        )
    } else if first_bad_code(config.deny_regions, true) < config.deny_regions.len() {
        Some(
            map_error(
                path,
                "invalid deny region: "@ + config.deny_regions[first_bad_code(
                    config.deny_regions,
                    true,
                )],
            ),
        )
    } else if first_bad_code(config.observe_regions, true) < config.observe_regions.len() {
        Some(
            map_error(
                path,
                "invalid observe region: "@ + config.observe_regions[first_bad_code(
                    config.observe_regions,
                    true,
                )],
            ),
        )
    } else if config.deny_regions.len() > MAX_COUNTRY_SELECTORS || config.observe_regions.len()
        > MAX_COUNTRY_SELECTORS || config.deny_asns.len() > MAX_COUNTRY_SELECTORS
        || config.observe_asns.len() > MAX_COUNTRY_SELECTORS {
        Some(
            map_error(
                path,
                "country selector count exceeds "@ + decimal(MAX_COUNTRY_SELECTORS as nat),
            ),
        )
    } else if config.deny_asns.contains(0) || config.observe_asns.contains(0) {
        Some(map_error(path, "ASN zero is invalid"@))
    } else if texts_meet(codes(config.deny, false), codes(config.observe, false)) {
        Some(map_error(path, "a country cannot be both denied and observed"@))
    } else if texts_meet(codes(config.deny_regions, true), codes(config.observe_regions, true)) || (
    exists|n: u32| config.deny_asns.contains(n) && config.observe_asns.contains(n)) {
        Some(map_error(path, "a region or ASN cannot be both denied and observed"@))
    } else if config.expected_sha256 is Some && !digest_text(config.expected_sha256->0) {
        Some(map_error(path, "expected_sha256 must be exactly 64 hexadecimal digits"@))
    } else if http_parts(path) is Some && config.max_age_secs is Some {
        Some(map_error(path, "max_age_secs is only supported for local map files"@))
    } else {
        None
    }
}

/// What a configuration asks for once it is checked.
pub struct CountrySelectors {
    pub path: String,
    pub deny: Selector,
    pub observe: Selector,
}

fn refuse(path: &str, reason: String) -> (r: PolicyError)
    ensures
        r@ == map_error(path@, reason@),
{
    PolicyError::InvalidCountryMap { path: path.to_owned(), reason }
}

/// Checks the selectors and the pin. Nothing is to be read for a configuration that names no
/// map and selects nothing, and none for one that is refused.
pub fn check_country_config(config: &CountryPolicyConfig) -> (r: Result<
    Option<CountrySelectors>,
    PolicyError,
>)
    ensures
        unconfigured(config@) ==> r is Ok && r->Ok_0 is None,
        !unconfigured(config@) ==> match config_fault(config@) {
            Some(error) => r is Err && r->Err_0@ == error,
            None => {
                &&& r is Ok
                &&& r->Ok_0 is Some
                &&& r->Ok_0->0.path@ == config@.map_path->0
                &&& r->Ok_0->0.deny.wf()
                &&& r->Ok_0->0.observe.wf()
                &&& r->Ok_0->0.deny@ == deny_selector(config@)
                &&& r->Ok_0->0.observe@ == observe_selector(config@)
            },
        },
{
    if config.map_path.is_none() && config.deny.len() == 0 && config.observe.len() == 0
        && config.deny_regions.len() == 0 && config.observe_regions.len() == 0
        && config.deny_asns.len() == 0 && config.observe_asns.len() == 0 {
        return Ok(None);
    }
    let path = match &config.map_path {
        Some(path) => path.as_str(),
        None => {
            return Err(
                refuse(
                    "<none>",
                    "map_path is required when country rules are configured".to_owned(),
                ),
            );
        },
    };
    let deny = match collect_codes(&config.deny, false) {
        Ok(set) => set,
        Err(i) => {
            assert(config@.deny[i as int] == config.deny@[i as int]@);
            return Err(
                refuse(path, joined("invalid deny country code: ", config.deny[i].as_str())),
            );
        },
    };
    let observe = match collect_codes(&config.observe, false) {
        Ok(set) => set,
        Err(i) => {
            assert(config@.observe[i as int] == config.observe@[i as int]@);
            return Err(
                refuse(path, joined("invalid observe country code: ", config.observe[i].as_str())),
            );
        },
    };
    let deny_regions = match collect_codes(&config.deny_regions, true) {
        Ok(set) => set,
        Err(i) => {
            assert(config@.deny_regions[i as int] == config.deny_regions@[i as int]@);
            return Err(
                refuse(path, joined("invalid deny region: ", config.deny_regions[i].as_str())),
            );
        },
    };
    let observe_regions = match collect_codes(&config.observe_regions, true) {
        Ok(set) => set,
        Err(i) => {
            assert(config@.observe_regions[i as int] == config.observe_regions@[i as int]@);
            return Err(
                refuse(path, joined("invalid observe region: ", config.observe_regions[i].as_str())),
            );
        },
    };
    if config.deny_regions.len() > MAX_COUNTRY_SELECTORS || config.observe_regions.len()
        > MAX_COUNTRY_SELECTORS || config.deny_asns.len() > MAX_COUNTRY_SELECTORS
        || config.observe_asns.len() > MAX_COUNTRY_SELECTORS {
        return Err(
            refuse(
                path,
                crate::text::ending_in_number(
                    "country selector count exceeds ",
                    MAX_COUNTRY_SELECTORS as u64,
                ),
            ),
        );
    }
    if has_u32(&config.deny_asns, 0) || has_u32(&config.observe_asns, 0) {
        return Err(refuse(path, "ASN zero is invalid".to_owned()));
    }
    if sets_meet(&deny, &observe) {
        return Err(
            refuse(path, "a country cannot be both denied and observed".to_owned()),
        );
    }
    if sets_meet(&deny_regions, &observe_regions) || numbers_meet(
        &config.deny_asns,
        &config.observe_asns,
    ) {
        return Err(
            refuse(path, "a region or ASN cannot be both denied and observed".to_owned()),
        );
    }
    match &config.expected_sha256 {
        Some(expected) => {
            if !valid_sha256(expected.as_str()) {
                return Err(
                    refuse(
                        path,
                        "expected_sha256 must be exactly 64 hexadecimal digits".to_owned(),
                    ),
                );
            }
        },
        None => {},
    }
    if http_source_parts(path).is_some() && config.max_age_secs.is_some() {
        return Err(
            refuse(path, "max_age_secs is only supported for local map files".to_owned()),
        );
    }
    Ok(
        Some(
            CountrySelectors {
                path: path.to_owned(),
                deny: Selector {
                    countries: deny,
                    regions: deny_regions,
                    asns: copy_list(&config.deny_asns),
                },
                observe: Selector {
                    countries: observe,
                    regions: observe_regions,
                    asns: copy_list(&config.observe_asns),
                },
            },
        ),
    )
}

// ---- loading -------------------------------------------------------------------------

/// What reading a local map gave: the facts of the file before and after, the time of the
/// reading, and the text.
#[derive(Debug)]
pub struct LocalMap {
    pub before: Result<FileFacts, String>,
    /// Why the time of the last change is not known, where it is not.
    pub time_fault: String,
    pub now: i128,
    pub contents: Result<String, String>,
    pub after: Result<FileFacts, String>,
}

/// What reading the map gave.
#[derive(Debug)]
pub enum CountrySource {
    Remote(Result<Vec<u8>, String>),
    Local(LocalMap),
}

/// What is wrong with the age of a local map.
pub open spec fn age_fault(max_age_secs: Option<u64>, facts: FileFacts, source: LocalMap) -> Option<
    Seq<char>,
> {
    match max_age_secs {
        None => None,
        Some(limit) => if limit == 0 {
            Some("max_age_secs must be non-zero when configured"@)
        } else if facts.modified is None {
            Some("cannot read map modification time: "@ + source.time_fault@)
        } else if !fresh(facts.modified->0 as int, source.now as int, limit) {
            Some(
                "map is older than configured "@ + decimal(limit as nat) + "s freshness bound"@,
            )
        } else {
            None
        },
    }
}

/// The text of the map, or why it cannot be used.
pub open spec fn map_text(max_age_secs: Option<u64>, source: CountrySource) -> Result<
    Seq<char>,
    Seq<char>,
> {
    match source {
        CountrySource::Remote(Err(reason)) => Err(reason@),
        CountrySource::Remote(Ok(bytes)) => if valid_utf8(bytes@) {
            Ok(decode_utf8(bytes@))
        } else {
            Err("remote map is not UTF-8: "@ + utf8_fault(bytes@))
        },
        CountrySource::Local(map) => match map.before {
            Err(reason) => Err(reason@),
            Ok(facts) => if age_fault(max_age_secs, facts, map) is Some {
                Err(age_fault(max_age_secs, facts, map)->0)
            } else if facts.length > MAX_COUNTRY_MAP_BYTES {
                Err("file exceeds "@ + decimal(MAX_COUNTRY_MAP_BYTES as nat) + " bytes"@)
            } else {
                match (map.contents, map.after) {
                    (Err(reason), _) => Err(reason@),
                    (_, Err(reason)) => Err(reason@),
                    (Ok(text), Ok(last)) => if changed(facts, last) {
                        Err("map changed while it was being read"@)
                    } else {
                        Ok(text@)
                    },
                }
            },
        },
    }
}

fn read_source(max_age_secs: Option<u64>, source: &CountrySource) -> (r: Result<String, String>)
    ensures
        match map_text(max_age_secs, *source) {
            Ok(text) => r is Ok && r->Ok_0@ == text,
            Err(reason) => r is Err && r->Err_0@ == reason,
        },
{
    match source {
        CountrySource::Remote(outcome) => match outcome {
            Err(reason) => Err(reason.clone()),
            Ok(bytes) => match decode_text(bytes) {
                Ok(text) => Ok(text),
                Err(fault) => Err(joined("remote map is not UTF-8: ", fault.as_str())),
            },
        },
        CountrySource::Local(map) => {
            let facts = match &map.before {
                Ok(facts) => *facts,
                Err(reason) => {
                    return Err(reason.clone());
                },
            };
            match max_age_secs {
                Some(limit) => {
                    if limit == 0 {
                        return Err("max_age_secs must be non-zero when configured".to_owned());
                    }
                    match facts.modified {
                        None => {
                            return Err(
                                joined(
                                    "cannot read map modification time: ",
                                    map.time_fault.as_str(),
                                ),
                            );
                        },
                        Some(modified) => {
                            if !country_map_is_fresh(modified, map.now, limit) {
                                return Err(
                                    with_number(
                                        "map is older than configured ",
                                        limit,
                                        "s freshness bound",
                                    ),
                                );
                            }
                        },
                    }
                },
                None => {},
            }
            if facts.length > MAX_COUNTRY_MAP_BYTES {
                return Err(with_number("file exceeds ", MAX_COUNTRY_MAP_BYTES, " bytes"));
            }
            let text = match &map.contents {
                Ok(text) => text.clone(),
                Err(reason) => {
                    return Err(reason.clone());
                },
            };
            match &map.after {
                Ok(last) => {
                    if country_map_changed(facts, *last) {
                        Err("map changed while it was being read".to_owned())
                    } else {
                        Ok(text)
                    }
                },
                Err(reason) => Err(reason.clone()),
            }
        },
    }
}

/// A loaded map with what is denied and observed.
pub struct CountryPolicy {
    pub entries: Vec<CountryEntry>,
    pub source_fingerprint: u64,
    pub source_sha256: String,
    pub deny: Selector,
    pub observe: Selector,
}

/// The value of a loaded map.
pub struct CountryPolicyView {
    pub places: Seq<PlaceView>,
    pub fingerprint: u64,
    pub digest: Seq<char>,
    pub deny: SelectorView,
    pub observe: SelectorView,
}

impl View for CountryPolicy {
    type V = CountryPolicyView;

    open spec fn view(&self) -> CountryPolicyView {
        CountryPolicyView {
            places: place_views(self.entries@),
            fingerprint: self.source_fingerprint,
            digest: self.source_sha256@,
            deny: self.deny@,
            observe: self.observe@,
        }
    }
}

/// Whether some place is both denied and observed.
pub open spec fn conflicting(
    places: Seq<PlaceView>,
    deny: SelectorView,
    observe: SelectorView,
) -> bool {
    exists|i: int|
        0 <= i < places.len() && selected(deny, #[trigger] places[i]) && selected(
            observe,
            places[i],
        )
}

/// The policy that a text stands for under a configuration that was checked.
pub open spec fn policy_of(config: CountryView, text: Seq<char>) -> Result<
    CountryPolicyView,
    ErrorView,
> {
    let path = config.map_path->0;
    let digest = hex(sha256(encode_utf8(text)));
    let pin = config.expected_sha256;
    if pin is Some && lower(digest) != lower(pin->0) {
        Err(
            map_error(
                path,
                "map SHA-256 mismatch: expected "@ + pin->0 + ", got "@ + digest,
            ),
        )
    } else {
        match map_places(lines(text)) {
            Err(reason) => Err(map_error(path, reason)),
            Ok(places) => if places.len() == 0 {
                Err(map_error(path, "map contains no entries"@))
            } else if conflicting(places, deny_selector(config), observe_selector(config)) {
                Err(map_error(path, "a mapped entry cannot be both denied and observed"@))
            } else {
                Ok(
                    CountryPolicyView {
                        places,
                        fingerprint: fingerprint(encode_utf8(text)),
                        digest,
                        deny: deny_selector(config),
                        observe: observe_selector(config),
                    },
                )
            },
        }
    }
}

/// The policy of a configuration and what reading its map gave.
pub open spec fn loaded(config: CountryView, source: CountrySource) -> Result<
    Option<CountryPolicyView>,
    ErrorView,
> {
    if unconfigured(config) {
        Ok(None)
    } else {
        match config_fault(config) {
            Some(error) => Err(error),
            None => match map_text(config.max_age_secs, source) {
                Err(reason) => Err(map_error(config.map_path->0, reason)),
                Ok(text) => match policy_of(config, text) {
                    Err(error) => Err(error),
                    Ok(policy) => Ok(Some(policy)),
                },
            },
        }
    }
}

fn find_conflict(entries: &[CountryEntry], deny: &Selector, observe: &Selector) -> (r: bool)
    requires
        deny.wf(),
        observe.wf(),
    ensures
        r == conflicting(place_views(entries@), deny@, observe@),
{
    let ghost all = place_views(entries@);
    let mut i: usize = 0;
    while i < entries.len()
        invariant
            i <= entries.len(),
            deny.wf(),
            observe.wf(),
            all == place_views(entries@),
            forall|k: int|
                0 <= k < i ==> !(selected(deny@, #[trigger] all[k]) && selected(observe@, all[k])),
        decreases entries.len() - i,
    {
        assert(all[i as int] == entries[i as int]@);
        if deny.selects(&entries[i]) && observe.selects(&entries[i]) {
            return true;
        }
        i = i + 1;
    }
    false
}

/// Loads the map of a configuration from what reading it gave.
pub fn load_country_policy(config: &CountryPolicyConfig, source: &CountrySource) -> (r: Result<
    Option<CountryPolicy>,
    PolicyError,
>)
    ensures
        match loaded(config@, *source) {
            Err(error) => r is Err && r->Err_0@ == error,
            Ok(None) => r is Ok && r->Ok_0 is None,
            Ok(Some(policy)) => r is Ok && r->Ok_0 is Some && r->Ok_0->0.wf() && r->Ok_0->0@
                == policy,
        },
{
    let selectors = match check_country_config(config) {
        Ok(Some(selectors)) => selectors,
        Ok(None) => {
            return Ok(None);
        },
        Err(error) => {
            return Err(error);
        },
    };
    let path = selectors.path.as_str();
    let text = match read_source(config.max_age_secs, source) {
        Ok(text) => text,
        Err(reason) => {
            return Err(refuse(path, reason));
        },
    };
    let contents_sha256 = source_sha256(text.as_str().as_bytes());
    match &config.expected_sha256 {
        Some(expected) => {
            if !same_ignoring_case(contents_sha256.as_str(), expected.as_str()) {
                let head = joined("map SHA-256 mismatch: expected ", expected.as_str());
                let middle = joined(head.as_str(), ", got ");
                return Err(refuse(path, joined(middle.as_str(), contents_sha256.as_str())));
            }
        },
        None => {},
    }
    let chars = to_chars(text.as_str());
    let entries = match read_map(&chars) {
        Ok(entries) => entries,
        Err(reason) => {
            return Err(refuse(path, reason));
        },
    };
    if entries.len() == 0 {
        return Err(refuse(path, "map contains no entries".to_owned()));
    }
    if find_conflict(&entries, &selectors.deny, &selectors.observe) {
        return Err(
            refuse(path, "a mapped entry cannot be both denied and observed".to_owned()),
        );
    }
    Ok(
        Some(
            CountryPolicy {
                entries,
                source_fingerprint: source_fingerprint(text.as_str().as_bytes()),
                source_sha256: contents_sha256,
                deny: selectors.deny,
                observe: selectors.observe,
            },
        ),
    )
}

// ---- classifying clients -------------------------------------------------------------

/// The position of the place of a client among the first `n`: the one with the longest
/// prefix, and the last of those.
pub open spec fn place_of(places: Seq<PlaceView>, client: IpAddr, n: int) -> Option<int>
    decreases n,
{
    if n <= 0 {
        None
    } else {
        let best = place_of(places, client, n - 1);
        let place = places[n - 1];
        if in_network(place.network, client) && (best is None || place.network.prefix
            >= places[best->0].network.prefix) {
            Some(n - 1)
        } else {
            best
        }
    }
}

pub open spec fn client_place(policy: CountryPolicyView, client: IpAddr) -> Option<PlaceView> {
    match place_of(policy.places, client, policy.places.len() as int) {
        Some(i) => Some(policy.places[i]),
        None => None,
    }
}

pub open spec fn is_denied(policy: CountryPolicyView, client: IpAddr) -> bool {
    client_place(policy, client) matches Some(place) && selected(policy.deny, place)
}

pub open spec fn is_observed(policy: CountryPolicyView, client: IpAddr) -> bool {
    client_place(policy, client) matches Some(place) && selected(policy.observe, place)
}

impl CountryPolicy {
    pub open spec fn wf(&self) -> bool {
        self.deny.wf() && self.observe.wf()
    }

    fn entry_for(&self, client: IpAddr) -> (r: Option<&CountryEntry>)
        ensures
            r is Some <==> client_place(self@, client) is Some,
            r is Some ==> r->0@ == client_place(self@, client)->0,
    {
        let ghost all = place_views(self.entries@);
        let mut best: Option<usize> = None;
        let mut i: usize = 0;
        while i < self.entries.len()
            invariant
                i <= self.entries.len(),
                all == place_views(self.entries@),
                match best {
                    Some(at) => at < i && place_of(all, client, i as int) == Some(at as int),
                    None => place_of(all, client, i as int) == None::<int>,
                },
            decreases self.entries.len() - i,
        {
            assert(all[i as int] == self.entries[i as int]@);
            if self.entries[i].network.contains(client) {
                let better = match best {
                    Some(at) => {
                        assert(all[at as int] == self.entries[at as int]@);
                        self.entries[i].network.prefix >= self.entries[at].network.prefix
                    },
                    None => true,
                };
                if better {
                    best = Some(i);
                }
            }
            i = i + 1;
        }
        match best {
            Some(at) => {
                assert(all[at as int] == self.entries[at as int]@);
                Some(&self.entries[at])
            },
            None => None,
        }
    }

    /// Whether the client comes from a denied place.
    pub fn denied(&self, client: IpAddr) -> (r: bool)
        requires
            self.wf(),
        ensures
            r == is_denied(self@, client),
    {
        match self.entry_for(client) {
            Some(place) => self.deny.selects(place),
            None => false,
        }
    }

    /// Whether the client comes from an observed place.
    pub fn observed(&self, client: IpAddr) -> (r: bool)
        requires
            self.wf(),
        ensures
            r == is_observed(self@, client),
    {
        match self.entry_for(client) {
            Some(place) => self.observe.selects(place),
            None => false,
        }
    }

    /// The country of the client, where the map knows it.
    pub fn country_for(&self, client: IpAddr) -> (r: Option<String>)
        ensures
            r is Some <==> client_place(self@, client) is Some,
            r is Some ==> r->0@ == client_place(self@, client)->0.country,
    {
        match self.entry_for(client) {
            Some(place) => Some(to_text(&place.country)),
            None => None,
        }
    }
}

proof fn place_of_is_in_range(places: Seq<PlaceView>, client: IpAddr, n: int)
    requires
        0 <= n <= places.len(),
    ensures
        place_of(places, client, n) matches Some(i) ==> 0 <= i < n && in_network(
            places[i].network,
            client,
        ) && forall|k: int|
            0 <= k < n && in_network((#[trigger] places[k]).network, client)
                ==> places[k].network.prefix <= places[i].network.prefix,
        place_of(places, client, n) is None ==> forall|k: int|
            0 <= k < n ==> !in_network((#[trigger] places[k]).network, client),
    decreases n,
{
    if n > 0 {
        place_of_is_in_range(places, client, n - 1);
    }
}

/// A client is placed by a network that holds it, and by no shorter prefix than another that
/// does; a client that no network holds has no place.
pub proof fn clients_are_placed_by_the_longest_prefix(policy: CountryPolicyView, client: IpAddr)
    ensures
        match place_of(policy.places, client, policy.places.len() as int) {
            Some(i) => 0 <= i < policy.places.len() && in_network(policy.places[i].network, client)
                && forall|k: int|
                0 <= k < policy.places.len() && in_network(
                    (#[trigger] policy.places[k]).network,
                    client,
                ) ==> policy.places[k].network.prefix <= policy.places[i].network.prefix,
            None => forall|k: int|
                0 <= k < policy.places.len() ==> !in_network(
                    (#[trigger] policy.places[k]).network,
                    client,
                ),
        },
{
    place_of_is_in_range(policy.places, client, policy.places.len() as int);
}

/// No client of a loaded policy is both denied and observed.
pub proof fn denied_clients_are_not_observed(
    config: CountryView,
    source: CountrySource,
    client: IpAddr,
)
    ensures
        loaded(config, source) matches Ok(Some(policy)) ==> !(is_denied(policy, client)
            && is_observed(policy, client)),
{
    if loaded(config, source) is Ok && loaded(config, source)->Ok_0 is Some {
        let policy = loaded(config, source)->Ok_0->0;
        place_of_is_in_range(policy.places, client, policy.places.len() as int);
        assert(!conflicting(policy.places, policy.deny, policy.observe));
    }
}

/// A pinned map is only accepted with the pinned digest, whatever the case of its digits.
pub proof fn pinned_maps_have_the_pinned_digest(config: CountryView, source: CountrySource)
    requires
        config.expected_sha256 is Some,
    ensures
        loaded(config, source) matches Ok(Some(policy)) ==> lower(policy.digest) == lower(
            config.expected_sha256->0,
        ),
{
}

// ---- equality ------------------------------------------------------------------------

impl CountryEntry {
    fn same_as(&self, other: &CountryEntry) -> (r: bool)
        ensures
            r == (self@ == other@),
    {
        let regions = match (&self.region, &other.region) {
            (Some(a), Some(b)) => same(a, b),
            (None, None) => true,
            _ => false,
        };
        regions && same(&self.country, &other.country) && self.asn == other.asn && self.network
            == other.network
    }
}

impl Selector {
    fn same_as(&self, other: &Selector) -> (r: bool)
        requires
            self.wf(),
            other.wf(),
        ensures
            r == (self@ == other@),
    {
        self.countries.same_as(&other.countries) && self.regions.same_as(&other.regions)
            && same_u32s(&self.asns, &other.asns)
    }
}

impl CountryPolicy {
    /// Whether two loaded maps have the same value.
    pub fn same_as(&self, other: &CountryPolicy) -> (r: bool)
        requires
            self.wf(),
            other.wf(),
        ensures
            r == (self@ == other@),
    {
        let ghost a = place_views(self.entries@);
        let ghost b = place_views(other.entries@);
        if self.entries.len() != other.entries.len() {
            assert(a.len() != b.len());
            return false;
        }
        let mut i: usize = 0;
        while i < self.entries.len()
            invariant
                i <= self.entries.len(),
                self.entries@.len() == other.entries@.len(),
                a == place_views(self.entries@),
                b == place_views(other.entries@),
                forall|k: int| 0 <= k < i ==> a[k] == b[k],
            decreases self.entries.len() - i,
        {
            assert(a[i as int] == self.entries[i as int]@);
            assert(b[i as int] == other.entries[i as int]@);
            if !self.entries[i].same_as(&other.entries[i]) {
                return false;
            }
            i = i + 1;
        }
        assert(a =~= b);
        self.source_fingerprint == other.source_fingerprint && same_str(
            self.source_sha256.as_str(),
            other.source_sha256.as_str(),
        ) && self.deny.same_as(&other.deny) && self.observe.same_as(&other.observe)
    }
}

// ---- laws ----------------------------------------------------------------------------

/// A line of the map places a network: its first field is the country, two letters that count in
/// upper case, and its second the network. The third and fourth, where they are given and no dash,
/// are the region and the number of the autonomous system. Nothing behind a `#` counts.
pub proof fn lines_place_networks(line: Seq<char>, n: nat)
    requires
        byte_len(line) <= 256,
    ensures
        ({
            let fields = words(line.take(index_of(line, '#')));
            &&& map_line(line, n) == Ok::<Option<PlaceView>, Seq<char>>(None) <==> fields.len() == 0
            &&& map_line(line, n) matches Ok(Some(place)) ==> {
                &&& 2 <= fields.len() <= 4
                &&& fields[0].len() == 2
                &&& place.country == upper(fields[0])
                &&& forall|i: int|
                    0 <= i < 2 ==> 'A' <= (#[trigger] place.country[i]) && place.country[i] <= 'Z'
                &&& network(fields[1]) == Some(place.network)
                &&& place.region is Some <==> fields.len() > 2 && fields[2] != seq!['-']
                &&& place.region is Some ==> place.region->0 == upper(fields[2])
                &&& place.asn is Some <==> fields.len() > 3 && fields[3] != seq!['-']
                &&& place.asn is Some ==> place.asn->0 > 0 && (unsigned(
                    fields[3],
                    0xffff_ffff,
                ) == Some(place.asn->0 as nat) || fields[3].take(2) == seq!['A', 'S'] && unsigned(
                    fields[3].skip(2),
                    0xffff_ffff,
                ) == Some(place.asn->0 as nat))
            }
            &&& fields.len() == 2 && fields[0].len() == 2 && (forall|i: int|
                0 <= i < 2 ==> 'a' <= (#[trigger] fields[0][i]) && fields[0][i] <= 'z' || 'A'
                    <= fields[0][i] && fields[0][i] <= 'Z') && network(fields[1]) is Some
                ==> (map_line(line, n) matches Ok(Some(place)) && place.country == upper(fields[0])
                && place.network == network(fields[1])->0 && place.region is None && place.asn
                is None)
        }),
{
    reveal_strlit("-");
    reveal_strlit("AS");
    assert("-"@ =~= seq!['-']);
    assert("AS"@ =~= seq!['A', 'S']);
    let before = line.take(index_of(line, '#'));
    trimming_leaves_the_words(before);
    let fields = words(before);
    if fields.len() > 0 && code(fields[0], false) is Some {
        assert forall|i: int| 0 <= i < 2 implies 'A' <= (#[trigger] upper(fields[0])[i]) && upper(
            fields[0],
        )[i] <= 'Z' by {
            assert(letter(fields[0][i]));
        }
    }
    if fields.len() == 2 && fields[0].len() == 2 {
        assert(fields[0][0] == fields[0][0] && fields[0][1] == fields[0][1]);
    }
}

/// A map holds the places of its lines: each line that places a network is in it, whatever stands
/// before and behind it, and nothing else is. One line that cannot be read refuses the whole.
pub proof fn maps_hold_the_places_of_their_lines(all: Seq<Seq<char>>, k: int)
    requires
        0 <= k < all.len(),
        map_places(all) is Ok,
    ensures
        map_line(all[k], (k + 1) as nat) is Ok,
        map_line(all[k], (k + 1) as nat) matches Ok(Some(place)) ==> map_places(
            all,
        )->Ok_0.contains(place),
        map_places(all)->Ok_0.len() <= all.len(),
    decreases all.len(),
{
    let front = all.drop_last();
    let before = map_places(front)->Ok_0;
    let places = map_places(all)->Ok_0;
    if front.len() > 0 {
        maps_hold_the_places_of_their_lines(front, if k < front.len() { k } else { 0 });
    }
    if k < front.len() {
        assert(front[k] == all[k]);
        if map_line(all[k], (k + 1) as nat)->Ok_0 is Some {
            let i = choose|i: int|
                0 <= i < before.len() && before[i] == map_line(all[k], (k + 1) as nat)->Ok_0->0;
            assert(places[i] == before[i]);
        }
    } else if map_line(all[k], (k + 1) as nat)->Ok_0 is Some {
        assert(places.last() == map_line(all[k], (k + 1) as nat)->Ok_0->0);
    }
}

/// Each place of a map stands in one of its lines.
pub proof fn places_stand_in_lines(all: Seq<Seq<char>>, i: int) -> (k: int)
    requires
        map_places(all) is Ok,
        0 <= i < map_places(all)->Ok_0.len(),
    ensures
        0 <= k < all.len(),
        map_line(all[k], (k + 1) as nat) == Ok::<Option<PlaceView>, Seq<char>>(
            Some(map_places(all)->Ok_0[i]),
        ),
    decreases all.len(),
{
    let front = all.drop_last();
    let before = map_places(front)->Ok_0;
    if i < before.len() {
        let k = places_stand_in_lines(front, i);
        assert(front[k] == all[k]);
        k
    } else {
        all.len() - 1
    }
}

/// Of several lines with the same prefix the last one places a client.
pub proof fn later_lines_count(places: Seq<PlaceView>, client: IpAddr, n: int, k: int)
    requires
        0 <= k < n <= places.len(),
        in_network(places[k].network, client),
    ensures
        place_of(places, client, n) matches Some(i) && 0 <= i < n && (i < k
            ==> places[k].network.prefix < places[i].network.prefix) && places[k].network.prefix
            <= places[i].network.prefix,
    decreases n,
{
    if k < n - 1 {
        later_lines_count(places, client, n - 1, k);
    } else if n - 1 > 0 {
        place_of_is_in_range(places, client, n - 1);
    }
}

proof fn codes_are_upper_case(list: Seq<Seq<char>>, region: bool, code_text: Seq<char>)
    requires
        first_bad_code(list, region) >= list.len(),
    ensures
        codes(list, region).contains(code_text) <==> exists|i: int|
            0 <= i < list.len() && upper(#[trigger] list[i]) == code_text,
        forall|i: int| 0 <= i < list.len() ==> code(#[trigger] list[i], region) is Some,
    decreases list.len(),
{
    if list.len() > 0 {
        let front = list.drop_last();
        codes_are_upper_case(front, region, code_text);
        if codes(front, region).contains(code_text) {
            let i = choose|i: int| 0 <= i < front.len() && upper(#[trigger] front[i]) == code_text;
            assert(upper(list[i]) == code_text);
        }
        assert forall|i: int| 0 <= i < list.len() implies code(
            #[trigger] list[i],
            region,
        ) is Some by {
            if i < front.len() {
                assert(code(front[i], region) is Some);
            }
        }
        if upper(list.last()) == code_text {
            assert(upper(list[list.len() - 1]) == code_text);
        }
        if exists|i: int| 0 <= i < list.len() && upper(#[trigger] list[i]) == code_text {
            let i = choose|i: int| 0 <= i < list.len() && upper(#[trigger] list[i]) == code_text;
            if i < front.len() {
                assert(upper(front[i]) == code_text);
            }
        }
    }
}

/// Whether one of the texts is the code, whatever its case.
pub open spec fn names_code(list: Seq<Seq<char>>, code_text: Seq<char>) -> bool {
    exists|i: int| 0 <= i < list.len() && upper(#[trigger] list[i]) == code_text
}

/// Under accepted settings a client is denied where the country, the region or the autonomous
/// system of its place is among those to deny, and observed where one is among those to observe;
/// a client without a place is neither.
pub proof fn clients_are_judged_by_their_place(
    config: CountryView,
    source: CountrySource,
    client: IpAddr,
)
    requires
        loaded(config, source) matches Ok(Some(_)),
    ensures
        ({
            let policy = loaded(config, source)->Ok_0->0;
            match client_place(policy, client) {
                None => !is_denied(policy, client) && !is_observed(policy, client),
                Some(place) => {
                    &&& is_denied(policy, client) <==> names_code(config.deny, place.country) || (
                    place.region is Some && names_code(config.deny_regions, place.region->0)) || (
                    place.asn is Some && config.deny_asns.contains(place.asn->0))
                    &&& is_observed(policy, client) <==> names_code(config.observe, place.country)
                        || (place.region is Some && names_code(
                        config.observe_regions,
                        place.region->0,
                    )) || (place.asn is Some && config.observe_asns.contains(place.asn->0))
                },
            }
        }),
{
    let policy = loaded(config, source)->Ok_0->0;
    if client_place(policy, client) is Some {
        let place = client_place(policy, client)->0;
        codes_are_upper_case(config.deny, false, place.country);
        codes_are_upper_case(config.observe, false, place.country);
        if place.region is Some {
            codes_are_upper_case(config.deny_regions, true, place.region->0);
            codes_are_upper_case(config.observe_regions, true, place.region->0);
        }
    }
}

/// A local map is used for as many seconds as it may be old, counted from its last change, and no
/// longer. One that is longer than its limit, that changed during the reading or that the future
/// wrote is not used.
pub proof fn stale_maps_are_refused(config: CountryView, map: LocalMap)
    ensures
        loaded(config, CountrySource::Local(map)) matches Ok(Some(_)) ==> {
            map.before matches Ok(first) && map.after matches Ok(last) && map.contents is Ok && {
                &&& first.length <= 16_777_216
                &&& last.length == first.length
                &&& first.modified is Some ==> last.modified == first.modified
                &&& config.max_age_secs matches Some(limit) ==> limit > 0 && first.modified is Some
                    && first.modified->0 <= map.now && map.now <= first.modified->0 + limit
                    * 1_000_000_000
            }
        },
{
}

/// A map is fresh to the last nanosecond of its age and not one later.
pub proof fn maps_are_fresh_for_their_age(modified: int, max_age_secs: u64)
    requires
        max_age_secs > 0,
    ensures
        fresh(modified, modified, max_age_secs),
        fresh(modified, modified + max_age_secs * 1_000_000_000, max_age_secs),
        !fresh(modified, modified + max_age_secs * 1_000_000_000 + 1, max_age_secs),
        !fresh(modified, modified - 1, max_age_secs),
{
}

/// Accepted settings name a map and select by codes: two letters for a country, up to 32
/// characters for a region, numbers other than zero for autonomous systems, no more of any but
/// countries than the limit. None of them is both denied and observed.
pub proof fn accepted_country_settings_are_clear(config: CountryView)
    requires
        !unconfigured(config),
        config_fault(config) is None,
    ensures
        config.map_path is Some,
        forall|i: int| 0 <= i < config.deny.len() ==> (#[trigger] config.deny[i]).len() == 2,
        forall|i: int| 0 <= i < config.observe.len() ==> (#[trigger] config.observe[i]).len() == 2,
        forall|i: int|
            0 <= i < config.deny_regions.len() ==> 1 <= (#[trigger] config.deny_regions[i]).len()
                <= 32,
        forall|i: int|
            0 <= i < config.observe_regions.len() ==> 1 <= (
            #[trigger] config.observe_regions[i]).len() <= 32,
        config.deny_regions.len() <= 256 && config.observe_regions.len() <= 256,
        config.deny_asns.len() <= 256 && config.observe_asns.len() <= 256,
        forall|i: int| 0 <= i < config.deny_asns.len() ==> (#[trigger] config.deny_asns[i]) > 0,
        forall|i: int, k: int|
            0 <= i < config.deny.len() && 0 <= k < config.observe.len() ==> upper(
                #[trigger] config.deny[i],
            ) != upper(#[trigger] config.observe[k]),
        forall|i: int, k: int|
            0 <= i < config.deny_asns.len() && 0 <= k < config.observe_asns.len()
                ==> #[trigger] config.deny_asns[i] != #[trigger] config.observe_asns[k],
{
    codes_are_upper_case(config.deny, false, Seq::empty());
    codes_are_upper_case(config.observe, false, Seq::empty());
    codes_are_upper_case(config.deny_regions, true, Seq::empty());
    codes_are_upper_case(config.observe_regions, true, Seq::empty());
    assert forall|i: int| 0 <= i < config.deny_asns.len() implies (
    #[trigger] config.deny_asns[i]) > 0 by {
        assert(config.deny_asns.contains(config.deny_asns[i]));
    }
    assert forall|i: int, k: int|
        0 <= i < config.deny.len() && 0 <= k < config.observe.len() implies upper(
        #[trigger] config.deny[i],
    ) != upper(#[trigger] config.observe[k]) by {
        let text = upper(config.deny[i]);
        codes_are_upper_case(config.deny, false, text);
        codes_are_upper_case(config.observe, false, text);
        if text == upper(config.observe[k]) {
            assert(codes(config.deny, false).contains(text) && codes(
                config.observe,
                false,
            ).contains(text));
        }
    }
    assert forall|i: int, k: int|
        0 <= i < config.deny_asns.len() && 0 <= k
            < config.observe_asns.len() implies #[trigger] config.deny_asns[i]
        != #[trigger] config.observe_asns[k] by {
        assert(config.deny_asns.contains(config.deny_asns[i]));
        assert(config.observe_asns.contains(config.observe_asns[k]));
    }
}

/// The code of a region has one to 32 letters, digits, hyphens, underscores and dots.
pub proof fn regions_are_letters_digits_and_marks(value: Seq<char>)
    ensures
        code(value, true) is Some <==> 1 <= value.len() <= 32 && forall|i: int|
            0 <= i < value.len() ==> 'a' <= (#[trigger] value[i]) && value[i] <= 'z' || 'A'
                <= value[i] && value[i] <= 'Z' || '0' <= value[i] && value[i] <= '9' || value[i]
                == '-' || value[i] == '_' || value[i] == '.',
        code(value, true) matches Some(text) ==> text == upper(value),
{
    if code(value, true) is Some {
        assert forall|i: int| 0 <= i < value.len() implies 'a' <= (#[trigger] value[i]) && value[i]
            <= 'z' || 'A' <= value[i] && value[i] <= 'Z' || '0' <= value[i] && value[i] <= '9'
            || value[i] == '-' || value[i] == '_' || value[i] == '.' by {
            assert(region_char(value[i]));
        }
    }
}

} // verus!
