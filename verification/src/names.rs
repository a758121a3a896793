//! Domain names in text form: normal form, validity, wire size and suffix matching.
use vstd::prelude::*;
use vstd::slice::slice_subrange;

use crate::text::{lower, lower_char, same, split, split_at_char, to_chars, to_lower, to_text,
    trim_end_char, trim_end_of, views};

verus! {

/// The longest name, in bytes, that a rule may carry.
pub const MAX_DOMAIN_BYTES: usize = 253;

/// The form in which names are compared: no trailing dots, ASCII lower case.
pub open spec fn normal(name: Seq<char>) -> Seq<char> {
    lower(trim_end_of(name, '.'))
}

pub fn normalize_chars(name: &[char]) -> (r: Vec<char>)
    ensures
        r@ == normal(name@),
{
    let trimmed = trim_end_char(name, '.');
    to_lower(&trimmed)
}

/// The normal form of a name.
pub fn normalize(name: &str) -> (r: String)
    ensures
        r@ == normal(name@),
{
    let chars = to_chars(name);
    let out = normalize_chars(&chars);
    to_text(&out)
}

pub open spec fn ascii(c: char) -> bool {
    (c as u32) < 128
}

/// A label of a listed name: not empty, at most 63 ASCII characters.
pub open spec fn listed_label(label: Seq<char>) -> bool {
    1 <= label.len() <= 63 && forall|i: int| 0 <= i < label.len() ==> ascii(#[trigger] label[i])
}

/// A name that a filter list may carry.
pub open spec fn listed_name(name: Seq<char>) -> bool {
    &&& 1 <= name.len() <= MAX_DOMAIN_BYTES
    &&& forall|i: int|
        0 <= i < split(name, '.').len() ==> listed_label(#[trigger] split(name, '.')[i])
}

pub(crate) fn check_listed_label(label: &[char]) -> (r: bool)
    ensures
        r == listed_label(label@),
{
    if label.len() == 0 || label.len() > 63 {
        return false;
    }
    let mut i: usize = 0;
    while i < label.len()
        invariant
            i <= label.len(),
            forall|k: int| 0 <= k < i ==> ascii(#[trigger] label@[k]),
        decreases label.len() - i,
    {
        if label[i] as u32 >= 128 {
            assert(!ascii(label@[i as int]));
            return false;
        }
        i = i + 1;
    }
    true
}

pub fn is_listed_name(name: &[char]) -> (r: bool)
    ensures
        r == listed_name(name@),
{
    if name.len() == 0 || name.len() > MAX_DOMAIN_BYTES {
        return false;
    }
    let labels = split_at_char(name, '.');
    let ghost all = split(name@, '.');
    let mut i: usize = 0;
    while i < labels.len()
        invariant
            i <= labels.len(),
            all == views(labels@),
            all == split(name@, '.'),
            forall|k: int| 0 <= k < i ==> listed_label(#[trigger] all[k]),
        decreases labels.len() - i,
    {
        assert(all[i as int] == labels[i as int]@);
        if !check_listed_label(&labels[i]) {
            return false;
        }
        i = i + 1;
    }
    true
}

pub open spec fn alphanumeric(c: char) -> bool {
    ('0' <= c && c <= '9') || ('a' <= c && c <= 'z') || ('A' <= c && c <= 'Z')
}

/// A label of a host name: letters, digits and inner hyphens.
pub open spec fn host_label(label: Seq<char>) -> bool {
    &&& 1 <= label.len() <= 63
    &&& label[0] != '-'
    &&& label.last() != '-'
    &&& forall|i: int|
        0 <= i < label.len() ==> alphanumeric(#[trigger] label[i]) || label[i] == '-'
}

pub open spec fn host_labels(name: Seq<char>) -> bool {
    forall|i: int| 0 <= i < split(name, '.').len() ==> host_label(#[trigger] split(name, '.')[i])
}

/// A valid DNS name without its trailing dot; the empty text is the root.
pub open spec fn dns_name(name: Seq<char>) -> bool {
    name.len() == 0 || (name.len() <= 253 && host_labels(name))
}

fn check_host_label(label: &[char]) -> (r: bool)
    ensures
        r == host_label(label@),
{
    if label.len() == 0 || label.len() > 63 || label[0] == '-' || label[label.len() - 1] == '-' {
        return false;
    }
    let mut i: usize = 0;
    while i < label.len()
        invariant
            i <= label.len(),
            forall|k: int| 0 <= k < i ==> alphanumeric(#[trigger] label@[k]) || label@[k] == '-',
        decreases label.len() - i,
    {
        let c = label[i];
        if !(('0' <= c && c <= '9') || ('a' <= c && c <= 'z') || ('A' <= c && c <= 'Z') || c == '-') {
            assert(!(alphanumeric(label@[i as int]) || label@[i as int] == '-'));
            return false;
        }
        i = i + 1;
    }
    true
}

/// Whether every label of the name is a host label.
pub fn has_host_labels(name: &[char]) -> (r: bool)
    ensures
        r == host_labels(name@),
{
    let labels = split_at_char(name, '.');
    let ghost all = split(name@, '.');
    let mut i: usize = 0;
    while i < labels.len()
        invariant
            i <= labels.len(),
            all == views(labels@),
            all == split(name@, '.'),
            forall|k: int| 0 <= k < i ==> host_label(#[trigger] all[k]),
        decreases labels.len() - i,
    {
        assert(all[i as int] == labels[i as int]@);
        if !check_host_label(&labels[i]) {
            return false;
        }
        i = i + 1;
    }
    true
}

pub fn valid_dns_name(name: &[char]) -> (r: bool)
    ensures
        r == dns_name(name@),
{
    name.len() == 0 || (name.len() <= 253 && has_host_labels(name))
}

/// Whether the name lies below the domain: it ends with a dot and the domain.
pub open spec fn below(name: Seq<char>, domain: Seq<char>) -> bool {
    &&& name.len() > domain.len()
    &&& name.skip(name.len() - domain.len()) == domain
    &&& name[name.len() - domain.len() - 1] == '.'
}

pub fn is_below(name: &[char], domain: &[char]) -> (r: bool)
    ensures
        r == below(name@, domain@),
{
    if name.len() <= domain.len() {
        return false;
    }
    let at: usize = name.len() - domain.len();
    assert(name@.subrange(at as int, name@.len() as int) == name@.skip(at as int));
    name[at - 1] == '.' && same(slice_subrange(name, at, name.len()), domain)
}

/// A name below a domain and the domain itself are never the same text, and a name never
/// lies below a domain that it merely ends with inside a label.
pub proof fn below_respects_labels(name: Seq<char>, domain: Seq<char>)
    requires
        below(name, domain),
    ensures
        name != domain,
        name == name.take(name.len() - domain.len() - 1) + seq!['.'] + domain,
{
    let at = name.len() - domain.len();
    assert(name =~= name.take(at - 1) + seq![name[at - 1]] + name.skip(at));
}

/// Case and trailing dots do not matter to the normal form.
pub proof fn normal_is_idempotent(name: Seq<char>)
    ensures
        normal(normal(name)) == normal(name),
{
    let t = trim_end_of(name, '.');
    trim_end_of_last(name, '.');
    let n = lower(t);
    if n.len() > 0 {
        assert(n.last() == lower_char(t.last()));
        assert(t.last() != '.');
        assert(n.last() != '.');
    }
    assert(trim_end_of(n, '.') == n);
    assert(lower(n) =~= n);
}

proof fn trim_end_of_last(s: Seq<char>, c: char)
    ensures
        trim_end_of(s, c).len() > 0 ==> trim_end_of(s, c).last() != c,
    decreases s.len(),
{
    if s.len() > 0 && s.last() == c {
        trim_end_of_last(s.drop_last(), c);
    }
}

/// The bytes that a name takes on the wire: each label with its length byte, and the
/// root's length byte.
pub open spec fn wire_bytes(name: Seq<char>) -> nat {
    if name.len() == 0 || name == seq!['.'] {
        1
    } else {
        labels_bytes(split(trim_end_of(name, '.'), '.')) + 1
    }
}

pub open spec fn labels_bytes(labels: Seq<Seq<char>>) -> nat
    decreases labels.len(),
{
    if labels.len() == 0 {
        0
    } else {
        labels_bytes(labels.drop_last()) + crate::text::byte_len(labels.last()) + 1
    }
}

/// The size of a name on the wire; sizes beyond the machine word stay at its limit.
pub fn wire_name_bytes(name: &str) -> (r: usize)
    ensures
        r == if wire_bytes(name@) <= usize::MAX { wire_bytes(name@) } else { usize::MAX as nat },
{
    let chars = to_chars(name);
    if chars.len() == 0 || (chars.len() == 1 && chars[0] == '.') {
        assert(chars@.len() == 1 ==> chars@ =~= seq!['.']);
        return 1;
    }
    assert(chars@ != seq!['.']) by {
        if chars@ == seq!['.'] {
            assert(chars@.len() == 1 && chars@[0] == '.');
        }
    }
    let trimmed = trim_end_char(&chars, '.');
    let labels = split_at_char(&trimmed, '.');
    let ghost all = views(labels@);
    let mut total: usize = 0;
    let mut i: usize = 0;
    while i < labels.len()
        invariant
            i <= labels.len(),
            all == views(labels@),
            total == if labels_bytes(all.take(i as int)) <= usize::MAX {
                labels_bytes(all.take(i as int))
            } else {
                usize::MAX as nat
            },
        decreases labels.len() - i,
    {
        assert(all.take(i as int + 1).drop_last() == all.take(i as int));
        assert(all.take(i as int + 1).last() == labels[i as int]@);
        let size: usize = crate::text::utf8_len(&labels[i]);
        total = total.saturating_add(size.saturating_add(1));
        i = i + 1;
    }
    assert(all.take(i as int) =~= all);
    total.saturating_add(1)
}

/// The normal form holds the characters of the name in ASCII lower case, without the dots at its
/// end and with nothing else left out.
pub proof fn normal_names_are_the_name(name: Seq<char>)
    ensures
        ({
            let plain = normal(name);
            &&& plain.len() <= name.len()
            &&& plain.len() > 0 ==> plain.last() != '.'
            &&& forall|i: int| plain.len() <= i < name.len() ==> #[trigger] name[i] == '.'
            &&& forall|i: int|
                0 <= i < plain.len() ==> (#[trigger] plain[i]) as u32 == (if 65 <= name[i] as u32
                    <= 90 {
                    name[i] as u32 + 32
                } else {
                    name[i] as int
                })
        }),
{
    crate::text::cut_ends_are_runs(name, '.');
    let kept = trim_end_of(name, '.');
    assert forall|i: int| 0 <= i < normal(name).len() implies (#[trigger] normal(name)[i]) as u32
        == (if 65 <= name[i] as u32 <= 90 {
        name[i] as u32 + 32
    } else {
        name[i] as int
    }) by {
        assert(kept[i] == name[i]);
    }
    if kept.len() > 0 {
        assert(normal(name).last() as u32 != '.' as u32);
    }
}

/// A name lies below a domain exactly where it is something, a dot and the domain.
pub proof fn names_below_end_with_a_dot_and_the_domain(before: Seq<char>, domain: Seq<char>)
    ensures
        below(before + seq!['.'] + domain, domain),
        forall|name: Seq<char>| #[trigger]
            below(name, domain) ==> name == name.take(name.len() - domain.len() - 1) + seq!['.']
                + domain,
        !below(domain, domain),
{
    let name = before + seq!['.'] + domain;
    assert(name.skip(name.len() - domain.len()) =~= domain);
    assert forall|name: Seq<char>| #[trigger] below(name, domain) implies name == name.take(
        name.len() - domain.len() - 1,
    ) + seq!['.'] + domain by {
        let cut = name.len() - domain.len();
        assert(name =~= name.take(cut - 1) + seq![name[cut - 1]] + name.skip(cut));
    }
}

/// A name that a filter list may carry has 1 to 253 characters; what stands between its dots has 1
/// to 63, all of them ASCII.
pub proof fn listed_names_are_bounded(name: Seq<char>, i: int)
    requires
        listed_name(name),
        0 <= i < split(name, '.').len(),
    ensures
        1 <= name.len() <= 253,
        1 <= split(name, '.')[i].len() <= 63,
        forall|k: int|
            0 <= k < split(name, '.')[i].len() ==> (#[trigger] split(name, '.')[i][k]) as u32
                <= 127,
{
    assert(listed_label(split(name, '.')[i]));
    assert forall|k: int| 0 <= k < split(name, '.')[i].len() implies (
    #[trigger] split(name, '.')[i][k]) as u32 <= 127 by {
        assert(ascii(split(name, '.')[i][k]));
    }
}

/// A letter or digit of ASCII, or a hyphen that is neither the first character nor the last.
pub open spec fn host_char_at(label: Seq<char>, i: int) -> bool {
    let c = label[i] as int;
    ||| 48 <= c <= 57
    ||| 65 <= c <= 90
    ||| 97 <= c <= 122
    ||| c == 45 && 0 < i < label.len() - 1
}

/// A text of 1 to 63 letters, digits and hyphens that neither starts nor ends with a hyphen is a
/// host label, and no other text is.
pub proof fn host_labels_are_letters_digits_and_hyphens(label: Seq<char>)
    ensures
        host_label(label) <==> 1 <= label.len() <= 63 && forall|i: int|
            0 <= i < label.len() ==> #[trigger] host_char_at(label, i),
{
    if host_label(label) {
        assert forall|i: int| 0 <= i < label.len() implies #[trigger] host_char_at(label, i) by {
            assert(alphanumeric(label[i]) || label[i] == '-');
        }
    }
    if 1 <= label.len() <= 63 && forall|i: int|
        0 <= i < label.len() ==> #[trigger] host_char_at(label, i) {
        assert(host_char_at(label, 0) && host_char_at(label, label.len() - 1));
        assert forall|i: int| 0 <= i < label.len() implies alphanumeric(#[trigger] label[i])
            || label[i] == '-' by {
            assert(host_char_at(label, i));
        }
    }
}

proof fn labels_bytes_grow(label: Seq<char>, rest: Seq<Seq<char>>)
    ensures
        labels_bytes(seq![label] + rest) == crate::text::byte_len(label) + 1 + labels_bytes(rest),
    decreases rest.len(),
{
    let all = seq![label] + rest;
    if rest.len() == 0 {
        assert(all.drop_last() =~= Seq::empty());
        assert(all.last() == label);
        assert(labels_bytes(all.drop_last()) == 0);
    } else {
        labels_bytes_grow(label, rest.drop_last());
        assert(all.drop_last() =~= seq![label] + rest.drop_last());
        assert(all.last() == rest.last());
    }
}

/// On the wire the root takes one byte, and every label before it takes its bytes and one more for
/// its length.
pub proof fn labels_take_a_byte_more(label: Seq<char>, rest: Seq<char>)
    requires
        label.len() > 0,
        forall|i: int| 0 <= i < label.len() ==> #[trigger] label[i] != '.',
        rest.len() > 0 ==> rest.last() != '.',
    ensures
        wire_bytes(Seq::empty()) == 1,
        wire_bytes(label) == crate::text::byte_len(label) + 2,
        rest.len() > 0 ==> wire_bytes(label.push('.') + rest) == crate::text::byte_len(label) + 1
            + wire_bytes(rest),
{
    let none = Seq::<Seq<char>>::empty();
    crate::text::the_first_piece_ends_at_the_separator(label, '.', rest);
    labels_bytes_grow(label, none);
    assert(seq![label] + none =~= seq![label]);
    assert(label[label.len() - 1] != '.');
    assert(label != seq!['.']) by {
        assert(label[0] != '.');
    }
    assert(trim_end_of(label, '.') == label);
    if rest.len() > 0 {
        let name = label.push('.') + rest;
        assert(name.last() == rest.last());
        assert(trim_end_of(name, '.') == name);
        assert(trim_end_of(rest, '.') == rest);
        assert(name != seq!['.']) by {
            assert(name.len() > 1);
        }
        assert(rest != seq!['.']) by {
            assert(rest.last() != '.');
        }
        labels_bytes_grow(label, split(rest, '.'));
    }
}

} // verus!
