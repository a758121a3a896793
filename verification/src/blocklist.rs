//! Filter lists: the hosts and AdGuard line formats, and the domain rules they stand for.
use vstd::prelude::*;
use vstd::slice::slice_subrange;
use vstd::utf8::{decode_utf8, valid_utf8};

use crate::lists::{copy_list, has_text};
use crate::names::{is_listed_name, listed_name, normal};
use crate::net::{address, parse_address};
use crate::policy::{rule_views, Action, ErrorView, PolicyError, RuleConfig, RuleView, MAX_RULES};
use crate::text::{byte_len, copy_chars, decimal, decode_text, ending_in_number, find_char,
    has_prefix, index_of, is_space, is_text, joined, lines, lower, lower_char, push_all, same_str, split, split_at_char,
    split_lines, split_words, str_len, strip_prefix, texts, to_chars, to_lower, to_text, trim,
    trim_end_char, trim_end_of, trimmed, utf8_fault, utf8_len, views, with_number, words};
use crate::text_set::{ascending, ascending_unique, finite_sets_are_sorted, pushed_to_set, sorted, sorted_is, TextSet};

verus! {

/// The most bytes of one source.
pub const MAX_BLOCKLIST_BYTES: u64 = 16_777_216;

pub const MAX_BLOCKLIST_LINE_BYTES: usize = 4096;

pub const MAX_BLOCKLIST_PATHS: usize = 4096;

pub const MAX_BLOCKLIST_PATH_BYTES: usize = 4096;

/// The most bytes of all sources together.
pub const MAX_BLOCKLIST_TOTAL_BYTES: u64 = 67_108_864;

pub const MAX_BLOCKLIST_DENYALLOW_DOMAINS: usize = 256;

/// The most domains that the lists may name: each takes two rules.
pub const MAX_LISTED_DOMAINS: usize = MAX_RULES / 2;

pub open spec fn list_error(path: Seq<char>, reason: Seq<char>) -> ErrorView {
    ErrorView::InvalidBlocklist { path, reason }
}

// ---- sources -------------------------------------------------------------------------

/// The parts of a source that is fetched over HTTP: where to connect to, and what to ask for.
pub open spec fn http_parts(source: Seq<char>) -> Option<(Seq<char>, Seq<char>)> {
    if !has_prefix(source, "http://"@) && !has_prefix(source, "https://"@) {
        None
    } else {
        let authority = if has_prefix(source, "http://"@) {
            7int
        } else {
            8
        };
        let slash = authority + index_of(source.skip(authority), '/');
        let base = source.take(slash);
        let path = if slash == source.len() {
            "/"@
        } else {
            source.skip(slash)
        };
        if base.len() > authority && !base.contains('#') && !path.contains('#') {
            Some((base, path))
        } else {
            None
        }
    }
}

fn has_char(s: &[char], c: char) -> (r: bool)
    ensures
        r == s@.contains(c),
{
    let at: usize = find_char(s, c);
    if at < s.len() {
        assert(s@[at as int] == c);
        true
    } else {
        false
    }
}

/// Splits an HTTP source into its base and its path. A source of another scheme, without a
/// host, or with a fragment is none.
pub fn http_source_parts(source: &str) -> (r: Option<(String, String)>)
    ensures
        r is Some <==> http_parts(source@) is Some,
        r is Some ==> {
            let (base, path) = r->0;
            (base@, path@) == http_parts(source@)->0
        },
{
    let chars = to_chars(source);
    proof {
        reveal_strlit("http://");
        reveal_strlit("https://");
        reveal_strlit("/");
    }
    let authority: usize = if strip_prefix(&chars, "http://").is_some() {
        7
    } else if strip_prefix(&chars, "https://").is_some() {
        8
    } else {
        return None;
    };
    assert(chars@.subrange(authority as int, chars@.len() as int) == chars@.skip(authority as int));
    let offset: usize = find_char(
        slice_subrange(chars.as_slice(), authority, chars.len()),
        '/',
    );
    let slash: usize = authority + offset;
    assert(chars@.subrange(0, slash as int) == chars@.take(slash as int));
    let base = copy_chars(slice_subrange(chars.as_slice(), 0, slash));
    let path = if slash == chars.len() {
        to_chars("/")
    } else {
        assert(chars@.subrange(slash as int, chars@.len() as int) == chars@.skip(slash as int));
        copy_chars(slice_subrange(chars.as_slice(), slash, chars.len()))
    };
    if base.len() > authority && !has_char(&base, '#') && !has_char(&path, '#') {
        Some((to_text(&base), to_text(&path)))
    } else {
        None
    }
}

/// Whether a source is fetched over HTTP rather than read from a file.
pub fn is_remote(source: &str) -> (r: bool)
    ensures
        r == (has_prefix(source@, "http://"@) || has_prefix(source@, "https://"@)),
{
    let chars = to_chars(source);
    strip_prefix(&chars, "http://").is_some() || strip_prefix(&chars, "https://").is_some()
}

/// Whether no text occurs twice.
pub open spec fn unique(list: Seq<Seq<char>>) -> bool {
    forall|i: int, j: int| 0 <= i < j < list.len() ==> list[i] != list[j]
}

/// The texts of the list that are not among the others, in order.
pub open spec fn without(list: Seq<Seq<char>>, others: Seq<Seq<char>>) -> Seq<Seq<char>>
    decreases list.len(),
{
    if list.len() == 0 {
        Seq::empty()
    } else {
        let rest = without(list.drop_last(), others);
        if others.contains(list.last()) {
            rest
        } else {
            rest.push(list.last())
        }
    }
}

/// The texts of the first list that the second one lacks.
pub open spec fn strangers(list: Seq<Seq<char>>, known: Seq<Seq<char>>) -> Set<Seq<char>> {
    list.to_set().filter(|t: Seq<char>| !known.contains(t))
}

/// The sources that are not disabled, in order. A disabled source that is repeated, or that is
/// not configured at all, is an error; the first of the latter in the order of texts is named.
pub open spec fn active_paths(paths: Seq<Seq<char>>, disabled: Seq<Seq<char>>) -> Result<
    Seq<Seq<char>>,
    ErrorView,
> {
    if !unique(disabled) {
        Err(list_error("<disabled>"@, "disabled source paths must be unique"@))
    } else if strangers(disabled, paths).len() > 0 {
        Err(
            list_error(
                sorted(strangers(disabled, paths))[0],
                "disabled source path is not configured"@,
            ),
        )
    } else {
        Ok(without(paths, disabled))
    }
}

/// Checks the disabled sources and returns the others.
pub fn active_blocklist_paths(paths: &[String], disabled: &[String]) -> (r: Result<
    Vec<String>,
    PolicyError,
>)
    ensures
        match active_paths(texts(paths@), texts(disabled@)) {
            Ok(active) => r is Ok && texts(r->Ok_0@) == active,
            Err(error) => r is Err && r->Err_0@ == error,
        },
{
    let ghost all = texts(paths@);
    let ghost off = texts(disabled@);
    let mut seen = TextSet::new();
    let mut missing = TextSet::new();
    let mut i: usize = 0;
    assert(off.take(0).to_set() =~= Set::<Seq<char>>::empty());
    while i < disabled.len()
        invariant
            i <= disabled.len(),
            all == texts(paths@),
            off == texts(disabled@),
            seen.wf(),
            missing.wf(),
            seen@ == off.take(i as int).to_set(),
            missing@ == off.take(i as int).to_set().filter(|t: Seq<char>| !all.contains(t)),
            forall|a: int, b: int| 0 <= a < b < i ==> off[a] != off[b],
        decreases disabled.len() - i,
    {
        let name = to_chars(disabled[i].as_str());
        assert(off[i as int] == name@);
        if seen.contains(&name) {
            proof {
                let k = choose|k: int| 0 <= k < i && off.take(i as int)[k] == name@;
                assert(off[k] == off[i as int]);
            }
            return Err(
                PolicyError::InvalidBlocklist {
                    path: "<disabled>".to_owned(),
                    reason: "disabled source paths must be unique".to_owned(),
                },
            );
        }
        proof {
            assert forall|a: int, b: int| 0 <= a < b < i + 1 implies off[a] != off[b] by {
                if b == i {
                    assert(off.take(i as int)[a] == off[a]);
                    assert(seen@.contains(off[a]));
                }
            }
        }
        seen.insert(&name);
        if !has_text(paths, disabled[i].as_str()) {
            missing.insert(&name);
        }
        proof {
            let before = off.take(i as int);
            let next = off.take(i as int + 1);
            assert(next =~= before.push(name@));
            pushed_to_set(off, i as int);
            assert(missing@ =~= next.to_set().filter(|t: Seq<char>| !all.contains(t)));
        }
        i = i + 1;
    }
    assert(off.take(i as int) =~= off);
    if missing.len() > 0 {
        proof {
            sorted_is(views(missing.items@));
            assert(missing@ =~= strangers(off, all));
        }
        return Err(
            PolicyError::InvalidBlocklist {
                path: to_text(&missing.items[0]),
                reason: "disabled source path is not configured".to_owned(),
            },
        );
    }
    assert(missing@ =~= strangers(off, all));
    assert(active_paths(all, off) == Ok::<Seq<Seq<char>>, ErrorView>(without(all, off)));
    let mut active: Vec<String> = Vec::new();
    let mut k: usize = 0;
    assert(texts(active@) =~= without(all.take(0), off));
    while k < paths.len()
        invariant
            k <= paths.len(),
            all == texts(paths@),
            off == texts(disabled@),
            texts(active@) == without(all.take(k as int), off),
            active_paths(all, off) == Ok::<Seq<Seq<char>>, ErrorView>(without(all, off)),
        decreases paths.len() - k,
    {
        assert(all.take(k as int + 1).drop_last() =~= all.take(k as int));
        assert(all.take(k as int + 1).last() == paths[k as int]@);
        if !has_text(disabled, paths[k].as_str()) {
            let ghost before = texts(active@);
            active.push(paths[k].clone());
            assert(texts(active@) =~= before.push(paths[k as int]@));
        }
        k = k + 1;
    }
    assert(all.take(k as int) =~= all);
    Ok(active)
}

// ---- one entry -----------------------------------------------------------------------

/// What one filter says.
pub struct EntryView {
    pub domain: Seq<char>,
    pub exception: bool,
    pub important: bool,
    pub cancelled: bool,
    pub allowed: Option<Seq<char>>,
}

/// What the modifiers of a filter say.
pub struct ModifiersView {
    pub important: bool,
    pub cancelled: bool,
    pub allowed: Option<Seq<char>>,
}

/// One modifier after the others.
pub open spec fn with_modifier(seen: ModifiersView, modifier: Seq<char>) -> Result<
    ModifiersView,
    Seq<char>,
> {
    if modifier == "important"@ {
        Ok(ModifiersView { important: true, ..seen })
    } else if modifier == "badfilter"@ {
        Ok(ModifiersView { cancelled: true, ..seen })
    } else if has_prefix(modifier, "denyallow="@) {
        Ok(ModifiersView { allowed: Some(modifier.skip(10)), ..seen })
    } else if modifier.len() == 0 {
        Err("empty AdGuard filter modifier"@)
    } else {
        Err("unsupported AdGuard filter modifier "@ + modifier)
    }
}

pub open spec fn modifiers(list: Seq<Seq<char>>) -> Result<ModifiersView, Seq<char>>
    decreases list.len(),
{
    if list.len() == 0 {
        Ok(ModifiersView { important: false, cancelled: false, allowed: None })
    } else {
        match modifiers(list.drop_last()) {
            Err(reason) => Err(reason),
            Ok(seen) => with_modifier(seen, list.last()),
        }
    }
}

/// The domain that a filter names, and whether it is an exception.
pub open spec fn filter_domain(name: Seq<char>) -> (bool, Seq<char>) {
    if has_prefix(name, "@@||"@) {
        (true, trim_end_of(name.skip(4), '^'))
    } else if has_prefix(name, "||"@) {
        (false, trim_end_of(name.skip(2), '^'))
    } else {
        (false, name)
    }
}

/// A field in its normal form: lower case, no trailing dots.
pub open spec fn normal_field(field: Seq<char>) -> Seq<char> {
    lower(trim_end_of(field, '.'))
}

/// The filter that a field of a line holds, or the reason why it is refused.
pub open spec fn entry(field: Seq<char>) -> Result<EntryView, Seq<char>> {
    let raw = normal_field(field);
    let at = index_of(raw, '$');
    let name = raw.take(at);
    let given = if at < raw.len() {
        modifiers(split(raw.skip(at + 1), ','))
    } else {
        modifiers(Seq::empty())
    };
    match given {
        Err(reason) => Err(reason),
        Ok(seen) => {
            let (exception, domain) = filter_domain(name);
            if !listed_name(domain) {
                Err("invalid domain "@ + name)
            } else {
                Ok(
                    EntryView {
                        domain,
                        exception,
                        important: seen.important,
                        cancelled: seen.cancelled,
                        allowed: seen.allowed,
                    },
                )
            }
        },
    }
}

/// What one filter says, as characters.
pub struct Entry {
    pub domain: Vec<char>,
    pub exception: bool,
    pub important: bool,
    pub cancelled: bool,
    pub allowed: Option<Vec<char>>,
}

impl View for Entry {
    type V = EntryView;

    open spec fn view(&self) -> EntryView {
        EntryView {
            domain: self.domain@,
            exception: self.exception,
            important: self.important,
            cancelled: self.cancelled,
            allowed: match self.allowed {
                Some(list) => Some(list@),
                None => None,
            },
        }
    }
}

proof fn modifiers_error_stays(list: Seq<Seq<char>>, n: int)
    requires
        0 <= n <= list.len(),
        modifiers(list.take(n)) is Err,
    ensures
        modifiers(list) == modifiers(list.take(n)),
    decreases list.len(),
{
    if n == list.len() {
        assert(list.take(n) =~= list);
    } else {
        assert(list.drop_last().take(n) =~= list.take(n));
        modifiers_error_stays(list.drop_last(), n);
    }
}

fn message_with(before: &str, chars: &[char]) -> (r: String)
    ensures
        r@ == before@ + chars@,
{
    let mut out = to_chars(before);
    push_all(&mut out, chars);
    to_text(&out)
}

fn read_modifiers(list: &[Vec<char>]) -> (r: Result<(bool, bool, Option<Vec<char>>), String>)
    ensures
        match modifiers(views(list@)) {
            Err(reason) => r is Err && r->Err_0@ == reason,
            Ok(seen) => {
                &&& r matches Ok((important, cancelled, allowed))
                &&& important == seen.important
                &&& cancelled == seen.cancelled
                &&& allowed is Some <==> seen.allowed is Some
                &&& allowed is Some ==> allowed->0@ == seen.allowed->0
            },
        },
{
    let ghost all = views(list@);
    let mut important: bool = false;
    let mut cancelled: bool = false;
    let mut allowed: Option<Vec<char>> = None;
    let mut i: usize = 0;
    proof {
        reveal_strlit("denyallow=");
    }
    while i < list.len()
        invariant
            i <= list.len(),
            all == views(list@),
            "denyallow="@.len() == 10,
            modifiers(all.take(i as int)) == Ok::<ModifiersView, Seq<char>>(
                ModifiersView {
                    important,
                    cancelled,
                    allowed: match allowed {
                        Some(text) => Some(text@),
                        None => None,
                    },
                },
            ),
        decreases list.len() - i,
    {
        let modifier = &list[i];
        let ghost next = all.take(i as int + 1);
        assert(next.drop_last() =~= all.take(i as int));
        assert(next.last() == modifier@);
        if is_text(modifier, "important") {
            important = true;
        } else if is_text(modifier, "badfilter") {
            cancelled = true;
        } else {
            match strip_prefix(modifier, "denyallow=") {
                Some(rest) => {
                    allowed = Some(rest);
                },
                None => {
                    proof {
                        modifiers_error_stays(all, i as int + 1);
                    }
                    if modifier.len() == 0 {
                        return Err("empty AdGuard filter modifier".to_owned());
                    }
                    return Err(message_with("unsupported AdGuard filter modifier ", modifier));
                },
            }
        }
        i = i + 1;
    }
    assert(all.take(i as int) =~= all);
    Ok((important, cancelled, allowed))
}

/// Reads one filter.
pub fn parse_entry(field: &[char]) -> (r: Result<Entry, String>)
    ensures
        match entry(field@) {
            Ok(value) => r is Ok && r->Ok_0@ == value,
            Err(reason) => r is Err && r->Err_0@ == reason,
        },
{
    let stripped = trim_end_char(field, '.');
    let raw = to_lower(&stripped);
    let at: usize = find_char(&raw, '$');
    assert(raw@.subrange(0, at as int) == raw@.take(at as int));
    let name = copy_chars(slice_subrange(raw.as_slice(), 0, at));
    let list = if at < raw.len() {
        assert(raw@.subrange(at as int + 1, raw@.len() as int) == raw@.skip(at as int + 1));
        split_at_char(slice_subrange(raw.as_slice(), at + 1, raw.len()), ',')
    } else {
        Vec::new()
    };
    assert(at >= raw.len() ==> views(list@) =~= Seq::<Seq<char>>::empty());
    let (important, cancelled, allowed) = match read_modifiers(&list) {
        Ok(seen) => seen,
        Err(reason) => {
            return Err(reason);
        },
    };
    proof {
        reveal_strlit("@@||");
        reveal_strlit("||");
    }
    let (exception, domain) = match strip_prefix(&name, "@@||") {
        Some(rest) => (true, trim_end_char(&rest, '^')),
        None => match strip_prefix(&name, "||") {
            Some(rest) => (false, trim_end_char(&rest, '^')),
            None => (false, copy_chars(&name)),
        },
    };
    if !is_listed_name(&domain) {
        return Err(message_with("invalid domain ", &name));
    }
    Ok(Entry { domain, exception, important, cancelled, allowed })
}

// ---- the lists together --------------------------------------------------------------

/// What the filters say together.
pub struct ListsView {
    pub domains: Set<Seq<char>>,
    pub exceptions: Set<Seq<char>>,
    pub important: Set<Seq<char>>,
    pub cancelled: Set<Seq<char>>,
    pub allowed: Map<Seq<char>, Set<Seq<char>>>,
}

pub open spec fn no_lists() -> ListsView {
    ListsView {
        domains: Set::empty(),
        exceptions: Set::empty(),
        important: Set::empty(),
        cancelled: Set::empty(),
        allowed: Map::empty(),
    }
}

/// The domains that a `denyallow` list adds to the ones already allowed.
pub open spec fn allowed_with(seen: Set<Seq<char>>, list: Seq<Seq<char>>) -> Option<Set<Seq<char>>>
    decreases list.len(),
{
    if list.len() == 0 {
        Some(seen)
    } else {
        match allowed_with(seen, list.drop_last()) {
            None => None,
            Some(before) => if listed_name(list.last()) && before.len()
                < MAX_BLOCKLIST_DENYALLOW_DOMAINS {
                Some(before.insert(lower(list.last())))
            } else {
                None
            },
        }
    }
}

/// The domains that are allowed below a filter's domain.
pub open spec fn allowed_below(allowed: Map<Seq<char>, Set<Seq<char>>>, domain: Seq<char>) -> Set<
    Seq<char>,
> {
    if allowed.contains_key(domain) {
        allowed[domain]
    } else {
        Set::empty()
    }
}

/// What the lists say with one more filter.
pub open spec fn with_entry(lists: ListsView, entry: EntryView) -> Result<ListsView, Seq<char>> {
    let allowed = match entry.allowed {
        None => Ok(lists.allowed),
        Some(list) => if entry.exception || list.len() == 0 {
            Err("denyallow requires a blocking filter and domain list"@)
        } else {
            match allowed_with(allowed_below(lists.allowed, entry.domain), split(list, '|')) {
                Some(set) => Ok(lists.allowed.insert(entry.domain, set)),
                None => Err("denyallow contains an invalid or excessive domain"@),
            }
        },
    };
    match allowed {
        Err(reason) => Err(reason),
        Ok(allowed) => {
            let domains = lists.domains.insert(entry.domain);
            if domains.len() > MAX_LISTED_DOMAINS {
                Err("domain count exceeds "@ + decimal(MAX_LISTED_DOMAINS as nat))
            } else {
                Ok(
                    ListsView {
                        domains,
                        exceptions: if entry.exception {
                            lists.exceptions.insert(entry.domain)
                        } else {
                            lists.exceptions
                        },
                        important: if !entry.exception && entry.important {
                            lists.important.insert(entry.domain)
                        } else {
                            lists.important
                        },
                        cancelled: if entry.cancelled {
                            lists.cancelled.insert(entry.domain)
                        } else {
                            lists.cancelled
                        },
                        allowed,
                    },
                )
            }
        },
    }
}

/// The texts of a list in lower case.
pub open spec fn lowered(list: Seq<Seq<char>>) -> Set<Seq<char>> {
    Set::new(|t: Seq<char>| exists|i: int| 0 <= i < list.len() && lower(#[trigger] list[i]) == t)
}

// What a list adds does not depend on the order of its texts.
proof fn allowed_with_is_union(seen: Set<Seq<char>>, list: Seq<Seq<char>>)
    requires
        allowed_with(seen, list) is Some,
    ensures
        allowed_with(seen, list)->0 == seen.union(lowered(list)),
    decreases list.len(),
{
    let all = allowed_with(seen, list)->0;
    if list.len() == 0 {
        assert(all =~= seen.union(lowered(list)));
    } else {
        let front = list.drop_last();
        allowed_with_is_union(seen, front);
        assert forall|t: Seq<char>| all.contains(t) == seen.union(lowered(list)).contains(t) by {
            if lowered(front).contains(t) {
                let i = choose|i: int| 0 <= i < front.len() && lower(#[trigger] front[i]) == t;
                assert(lower(list[i]) == t);
            }
            if lowered(list).contains(t) {
                let i = choose|i: int| 0 <= i < list.len() && lower(#[trigger] list[i]) == t;
                if i < front.len() {
                    assert(lower(front[i]) == t);
                }
            }
            if t == lower(list.last()) {
                assert(lower(list[list.len() - 1]) == t);
            }
        }
        assert(all =~= seen.union(lowered(list)));
    }
}

/// Filters say the same in either order, where both orders are accepted.
pub proof fn filters_commute(lists: ListsView, a: EntryView, b: EntryView)
    requires
        with_entry(lists, a) is Ok,
        with_entry(lists, b) is Ok,
        with_entry(with_entry(lists, a)->Ok_0, b) is Ok,
        with_entry(with_entry(lists, b)->Ok_0, a) is Ok,
    ensures
        with_entry(with_entry(lists, a)->Ok_0, b) == with_entry(with_entry(lists, b)->Ok_0, a),
{
    let first = with_entry(lists, a)->Ok_0;
    let other = with_entry(lists, b)->Ok_0;
    let one = with_entry(first, b)->Ok_0;
    let two = with_entry(other, a)->Ok_0;
    assert(one.domains =~= two.domains);
    assert(one.exceptions =~= two.exceptions);
    assert(one.important =~= two.important);
    assert(one.cancelled =~= two.cancelled);
    if a.allowed is Some {
        let list = split(a.allowed->0, '|');
        allowed_with_is_union(allowed_below(lists.allowed, a.domain), list);
        allowed_with_is_union(allowed_below(other.allowed, a.domain), list);
    }
    if b.allowed is Some {
        let list = split(b.allowed->0, '|');
        allowed_with_is_union(allowed_below(lists.allowed, b.domain), list);
        allowed_with_is_union(allowed_below(first.allowed, b.domain), list);
    }
    assert forall|k: Seq<char>| one.allowed.contains_key(k) == two.allowed.contains_key(k) by {}
    assert forall|k: Seq<char>| one.allowed.contains_key(k) implies one.allowed[k]
        == two.allowed[k] by {
        assert(one.allowed[k] =~= two.allowed[k]);
    }
    assert(one.allowed =~= two.allowed);
}

/// What a filter can say of its domain.
pub enum Aspect {
    Listed,
    Excepted,
    Important,
    Cancelled,
    Allowing,
}

/// Whether a filter says it.
pub open spec fn shows(e: EntryView, aspect: Aspect) -> bool {
    match aspect {
        Aspect::Listed => true,
        Aspect::Excepted => e.exception,
        Aspect::Important => !e.exception && e.important,
        Aspect::Cancelled => e.cancelled,
        Aspect::Allowing => e.allowed is Some,
    }
}

/// The domains of which one of the filters says it.
pub open spec fn named(filters: Set<EntryView>, aspect: Aspect) -> Set<Seq<char>> {
    Set::new(
        |d: Seq<char>|
            exists|e: EntryView|
                #[trigger] filters.contains(e) && e.domain == d && shows(e, aspect),
    )
}

/// What a set of filters says, whatever the order in which they come.
pub open spec fn said(filters: Set<EntryView>) -> ListsView {
    ListsView {
        domains: named(filters, Aspect::Listed),
        exceptions: named(filters, Aspect::Excepted),
        important: named(filters, Aspect::Important),
        cancelled: named(filters, Aspect::Cancelled),
        allowed: Map::new(
            |d: Seq<char>| named(filters, Aspect::Allowing).contains(d),
            |d: Seq<char>| said_below(filters, d),
        ),
    }
}

/// The domains that a set of filters allows below a domain.
pub open spec fn said_below(filters: Set<EntryView>, domain: Seq<char>) -> Set<Seq<char>> {
    Set::new(
        |t: Seq<char>|
            exists|e: EntryView|
                #[trigger] filters.contains(e) && e.domain == domain && e.allowed is Some && lowered(
                    split(e.allowed->0, '|'),
                ).contains(t),
    )
}

proof fn one_more_below(filters: Set<EntryView>, entry: EntryView, domain: Seq<char>)
    ensures
        said_below(filters.insert(entry), domain) == (if entry.allowed is Some && entry.domain
            == domain {
            said_below(filters, domain).union(lowered(split(entry.allowed->0, '|')))
        } else {
            said_below(filters, domain)
        }),
{
    let more = filters.insert(entry);
    let after = if entry.allowed is Some && entry.domain == domain {
        said_below(filters, domain).union(lowered(split(entry.allowed->0, '|')))
    } else {
        said_below(filters, domain)
    };
    assert forall|t: Seq<char>| said_below(more, domain).contains(t) == after.contains(t) by {
        if said_below(more, domain).contains(t) {
            let e = choose|e: EntryView|
                #[trigger] more.contains(e) && e.domain == domain && e.allowed is Some && lowered(
                    split(e.allowed->0, '|'),
                ).contains(t);
            if e != entry {
                assert(filters.contains(e));
            }
        }
        if said_below(filters, domain).contains(t) {
            let e = choose|e: EntryView|
                #[trigger] filters.contains(e) && e.domain == domain && e.allowed is Some
                    && lowered(split(e.allowed->0, '|')).contains(t);
            assert(more.contains(e));
        }
        assert(more.contains(entry));
    }
    assert(said_below(more, domain) =~= after);
}

proof fn one_more_domain(filters: Set<EntryView>, entry: EntryView, aspect: Aspect)
    ensures
        named(filters.insert(entry), aspect) == (if shows(entry, aspect) {
            named(filters, aspect).insert(entry.domain)
        } else {
            named(filters, aspect)
        }),
{
    let more = filters.insert(entry);
    let after = if shows(entry, aspect) {
        named(filters, aspect).insert(entry.domain)
    } else {
        named(filters, aspect)
    };
    assert forall|d: Seq<char>| named(more, aspect).contains(d) == after.contains(d) by {
        if named(more, aspect).contains(d) {
            let e = choose|e: EntryView|
                #[trigger] more.contains(e) && e.domain == d && shows(e, aspect);
            if e != entry {
                assert(filters.contains(e));
            }
        }
        if named(filters, aspect).contains(d) {
            let e = choose|e: EntryView|
                #[trigger] filters.contains(e) && e.domain == d && shows(e, aspect);
            assert(more.contains(e));
        }
        assert(more.contains(entry));
    }
    assert(named(more, aspect) =~= after);
}

// What the lists say with one more filter is what the set with one more filter says.
proof fn one_more_filter(filters: Set<EntryView>, entry: EntryView)
    requires
        with_entry(said(filters), entry) is Ok,
    ensures
        with_entry(said(filters), entry)->Ok_0 == said(filters.insert(entry)),
{
    let before = said(filters);
    let next = with_entry(before, entry)->Ok_0;
    let more = filters.insert(entry);
    let after = said(more);
    one_more_domain(filters, entry, Aspect::Listed);
    one_more_domain(filters, entry, Aspect::Excepted);
    one_more_domain(filters, entry, Aspect::Important);
    one_more_domain(filters, entry, Aspect::Cancelled);
    one_more_domain(filters, entry, Aspect::Allowing);
    assert(next.domains =~= after.domains);
    assert(next.exceptions =~= after.exceptions);
    assert(next.important =~= after.important);
    assert(next.cancelled =~= after.cancelled);
    assert(next.allowed.dom() =~= after.allowed.dom());
    assert forall|d: Seq<char>| next.allowed.contains_key(d) implies next.allowed[d]
        == after.allowed[d] by {
        one_more_below(filters, entry, d);
        if entry.allowed is Some && entry.domain == d {
            assert(allowed_below(before.allowed, d) =~= said_below(filters, d)) by {
                if !before.allowed.contains_key(d) {
                    assert forall|t: Seq<char>| !said_below(filters, d).contains(t) by {
                        if said_below(filters, d).contains(t) {
                            let e = choose|e: EntryView|
                                #[trigger] filters.contains(e) && e.domain == d && e.allowed is Some
                                    && lowered(split(e.allowed->0, '|')).contains(t);
                            assert(shows(e, Aspect::Allowing));
                            assert(before.allowed.contains_key(d));
                        }
                    }
                }
            }
            allowed_with_is_union(
                allowed_below(before.allowed, d),
                split(entry.allowed->0, '|'),
            );
        }
    }
    assert(next.allowed =~= after.allowed);
}

/// A map from domains to the domains that are allowed below them, in the order of its keys.
pub struct AllowTable {
    pub keys: TextSet,
    pub sets: Vec<TextSet>,
}

impl View for AllowTable {
    type V = Map<Seq<char>, Set<Seq<char>>>;

    open spec fn view(&self) -> Map<Seq<char>, Set<Seq<char>>> {
        allow_map(views(self.keys.items@), self.sets@)
    }
}

pub open spec fn key_index(keys: Seq<Seq<char>>, key: Seq<char>) -> int {
    choose|i: int| 0 <= i < keys.len() && keys[i] == key
}

pub open spec fn allow_map(keys: Seq<Seq<char>>, sets: Seq<TextSet>) -> Map<
    Seq<char>,
    Set<Seq<char>>,
> {
    Map::new(|key: Seq<char>| keys.contains(key), |key: Seq<char>| sets[key_index(keys, key)]@)
}

proof fn allow_map_at(keys: Seq<Seq<char>>, sets: Seq<TextSet>, i: int)
    requires
        ascending(keys),
        0 <= i < keys.len(),
    ensures
        allow_map(keys, sets).contains_key(keys[i]),
        allow_map(keys, sets)[keys[i]] == sets[i]@,
{
    ascending_unique(keys);
    let k = key_index(keys, keys[i]);
    assert(keys[i] == keys[i]);
    assert(0 <= k < keys.len() && keys[k] == keys[i]);
    assert(k == i);
}

impl AllowTable {
    pub open spec fn wf(&self) -> bool {
        &&& self.keys.wf()
        &&& self.sets@.len() == self.keys.items@.len()
        &&& forall|i: int| 0 <= i < self.sets@.len() ==> (#[trigger] self.sets@[i]).wf()
    }

    pub fn new() -> (r: AllowTable)
        ensures
            r.wf(),
            r@ == Map::<Seq<char>, Set<Seq<char>>>::empty(),
    {
        let r = AllowTable { keys: TextSet::new(), sets: Vec::new() };
        assert(views(r.keys.items@).len() == 0);
        assert(r@ =~= Map::empty());
        r
    }

    fn find(&self, key: &[char]) -> (r: Option<usize>)
        requires
            self.wf(),
        ensures
            match r {
                Some(i) => i < self.sets.len() && views(self.keys.items@)[i as int] == key@
                    && self@.contains_key(key@) && self@[key@] == self.sets@[i as int]@,
                None => !self@.contains_key(key@),
            },
    {
        let ghost keys = views(self.keys.items@);
        if self.keys.contains(key) {
            let at: usize = self.keys.rank(key);
            proof {
                let k = choose|k: int| 0 <= k < keys.len() && keys[k] == key@;
                crate::text::precedes_irreflexive(key@);
                assert(!crate::text::precedes(keys[k], key@));
                assert(at <= k);
                if at < k {
                    assert(crate::text::precedes(keys[at as int], keys[k]));
                }
                allow_map_at(keys, self.sets@, at as int);
            }
            Some(at)
        } else {
            None
        }
    }

    /// Sets the domains that are allowed below a key.
    fn put(&mut self, key: &[char], set: TextSet)
        requires
            old(self).wf(),
            set.wf(),
        ensures
            final(self).wf(),
            final(self)@ == old(self)@.insert(key@, set@),
    {
        let ghost before = views(self.keys.items@);
        let ghost old_sets = self.sets@;
        match self.find(key) {
            Some(i) => {
                self.sets[i] = set;
                proof {
                    assert forall|k: int| 0 <= k < self.sets@.len() implies (
                    #[trigger] self.sets@[k]).wf() by {
                        if k != i {
                            assert(self.sets@[k] == old_sets[k]);
                        }
                    }
                    assert forall|t: Seq<char>| before.contains(t) implies self@[t] == old(
                        self,
                    )@.insert(key@, set@)[t] by {
                        let k = key_index(before, t);
                        allow_map_at(before, self.sets@, k);
                        allow_map_at(before, old_sets, k);
                        allow_map_at(before, self.sets@, i as int);
                        ascending_unique(before);
                    }
                    assert(before.contains(key@)) by {
                        assert(before[i as int] == key@);
                    }
                    assert(self@ =~= old(self)@.insert(key@, set@));
                }
            },
            None => {
                let at: usize = self.keys.rank(key);
                let ghost present = self.keys@.contains(key@);
                assert(!before.contains(key@));
                self.keys.insert(key);
                self.sets.insert(at, set);
                proof {
                    let after = views(self.keys.items@);
                    inserted_at(before, after, key@, at as int);
                    assert forall|k: int| 0 <= k < self.sets@.len() implies (
                    #[trigger] self.sets@[k]).wf() by {
                        if k < at {
                            assert(self.sets@[k] == old_sets[k]);
                        } else if k > at {
                            assert(self.sets@[k] == old_sets[k - 1]);
                        }
                    }
                    assert forall|t: Seq<char>| after.contains(t) == (before.contains(t) || t
                        == key@) by {
                        if after.contains(t) {
                            let k = choose|k: int| 0 <= k < after.len() && after[k] == t;
                            if k < at {
                                assert(before[k] == t);
                            } else if k > at {
                                assert(before[k - 1] == t);
                            }
                        }
                        if before.contains(t) {
                            let k = choose|k: int| 0 <= k < before.len() && before[k] == t;
                            if k < at {
                                assert(after[k] == t);
                            } else {
                                assert(after[k + 1] == t);
                            }
                        }
                        assert(after[at as int] == key@);
                    }
                    assert forall|t: Seq<char>| after.contains(t) implies self@[t] == old(
                        self,
                    )@.insert(key@, set@)[t] by {
                        let k = key_index(after, t);
                        allow_map_at(after, self.sets@, k);
                        if t == key@ {
                            ascending_unique(after);
                            assert(after[at as int] == after[k]);
                        } else if k < at {
                            assert(before[k] == t);
                            allow_map_at(before, old_sets, k);
                        } else {
                            ascending_unique(after);
                            assert(k != at);
                            assert(before[k - 1] == t);
                            allow_map_at(before, old_sets, k - 1);
                        }
                    }
                    assert(self@ =~= old(self)@.insert(key@, set@));
                }
            },
        }
    }

    fn remove(&mut self, key: &[char])
        requires
            old(self).wf(),
        ensures
            final(self).wf(),
            final(self)@ == old(self)@.remove(key@),
    {
        let ghost before = views(self.keys.items@);
        let ghost old_sets = self.sets@;
        match self.find(key) {
            None => {
                assert(self@ =~= old(self)@.remove(key@));
            },
            Some(i) => {
                self.keys.remove(key);
                let _gone = self.sets.remove(i);
                proof {
                    let after = views(self.keys.items@);
                    removed_at(before, after, key@, i as int);
                    assert forall|k: int| 0 <= k < self.sets@.len() implies (
                    #[trigger] self.sets@[k]).wf() by {
                        if k < i {
                            assert(self.sets@[k] == old_sets[k]);
                        } else {
                            assert(self.sets@[k] == old_sets[k + 1]);
                        }
                    }
                    assert(after.to_set() == before.to_set().remove(key@));
                    assert forall|t: Seq<char>| after.contains(t) == (before.contains(t) && t
                        != key@) by {
                        assert(after.to_set().contains(t) == after.contains(t));
                        assert(before.to_set().contains(t) == before.contains(t));
                    }
                    assert forall|t: Seq<char>| after.contains(t) implies self@[t] == old(self)@[t] by {
                        let k = key_index(after, t);
                        allow_map_at(after, self.sets@, k);
                        if k < i {
                            assert(before[k] == t);
                            allow_map_at(before, old_sets, k);
                        } else {
                            assert(before[k + 1] == t);
                            allow_map_at(before, old_sets, k + 1);
                        }
                    }
                    assert(self@ =~= old(self)@.remove(key@));
                }
            },
        }
    }
}

// An ascending list with one more text is the old list with the text at its rank.
proof fn inserted_at(before: Seq<Seq<char>>, after: Seq<Seq<char>>, key: Seq<char>, at: int)
    requires
        ascending(before),
        ascending(after),
        after.to_set() == before.to_set().insert(key),
        !before.contains(key),
        0 <= at <= before.len(),
        forall|i: int| 0 <= i < at ==> crate::text::precedes(#[trigger] before[i], key),
        forall|i: int| at <= i < before.len() ==> !crate::text::precedes(#[trigger] before[i], key),
    ensures
        after == before.insert(at, key),
{
    let q = before.insert(at, key);
    assert forall|i: int, j: int| #![trigger q[i], q[j]] 0 <= i < j < q.len() implies
        crate::text::precedes(q[i], q[j]) by {
        let pi = if i < at { i } else { i - 1 };
        let pj = if j < at { j } else { j - 1 };
        if i == at {
            assert(q[j] == before[pj]);
            crate::text::precedes_total(before[pj], key);
        } else if j == at {
            assert(q[i] == before[pi]);
        } else {
            assert(q[i] == before[pi] && q[j] == before[pj]);
        }
    }
    assert(q.to_set() =~= after.to_set()) by {
        assert forall|t: Seq<char>| q.to_set().contains(t) == before.to_set().insert(key).contains(t) by {
            if q.contains(t) {
                let k = choose|k: int| 0 <= k < q.len() && q[k] == t;
                if k < at {
                    assert(before[k] == t);
                } else if k > at {
                    assert(before[k - 1] == t);
                }
            }
            if before.contains(t) {
                let k = choose|k: int| 0 <= k < before.len() && before[k] == t;
                if k < at {
                    assert(q[k] == t);
                } else {
                    assert(q[k + 1] == t);
                }
            }
            assert(q[at] == key);
        }
    }
    crate::text_set::ascending_of_a_set_is_unique(after, q);
}

// An ascending list with one text less is the old list without the text's place.
proof fn removed_at(before: Seq<Seq<char>>, after: Seq<Seq<char>>, key: Seq<char>, at: int)
    requires
        ascending(before),
        ascending(after),
        after.to_set() == before.to_set().remove(key),
        0 <= at < before.len(),
        before[at] == key,
    ensures
        after == before.remove(at),
{
    let q = before.remove(at);
    ascending_unique(before);
    assert forall|i: int, j: int| #![trigger q[i], q[j]] 0 <= i < j < q.len() implies
        crate::text::precedes(q[i], q[j]) by {
        let pi = if i < at { i } else { i + 1 };
        let pj = if j < at { j } else { j + 1 };
        assert(q[i] == before[pi] && q[j] == before[pj]);
    }
    assert(q.to_set() =~= after.to_set()) by {
        assert forall|t: Seq<char>| q.to_set().contains(t) == before.to_set().remove(key).contains(t) by {
            if q.contains(t) {
                let k = choose|k: int| 0 <= k < q.len() && q[k] == t;
                if k < at {
                    assert(before[k] == t);
                } else {
                    assert(before[k + 1] == t);
                }
            }
            if before.contains(t) && t != key {
                let k = choose|k: int| 0 <= k < before.len() && before[k] == t;
                if k < at {
                    assert(q[k] == t);
                } else {
                    assert(k != at);
                    assert(q[k - 1] == t);
                }
            }
        }
    }
    crate::text_set::ascending_of_a_set_is_unique(after, q);
}

/// The lists as they are collected.
pub struct Lists {
    pub domains: TextSet,
    pub exceptions: TextSet,
    pub important: TextSet,
    pub cancelled: TextSet,
    pub allowed: AllowTable,
}

impl View for Lists {
    type V = ListsView;

    open spec fn view(&self) -> ListsView {
        ListsView {
            domains: self.domains@,
            exceptions: self.exceptions@,
            important: self.important@,
            cancelled: self.cancelled@,
            allowed: self.allowed@,
        }
    }
}

proof fn allowed_with_none_stays(seen: Set<Seq<char>>, list: Seq<Seq<char>>, n: int)
    requires
        0 <= n <= list.len(),
        allowed_with(seen, list.take(n)) is None,
    ensures
        allowed_with(seen, list) is None,
    decreases list.len(),
{
    if n == list.len() {
        assert(list.take(n) =~= list);
    } else {
        assert(list.drop_last().take(n) =~= list.take(n));
        allowed_with_none_stays(seen, list.drop_last(), n);
    }
}

/// A copy of a set.
fn copy_set(set: &TextSet) -> (r: TextSet)
    requires
        set.wf(),
    ensures
        r.wf(),
        r@ == set@,
{
    let mut items: Vec<Vec<char>> = Vec::new();
    let ghost all = views(set.items@);
    let mut i: usize = 0;
    assert(views(items@) =~= all.take(0));
    while i < set.items.len()
        invariant
            i <= set.items.len(),
            all == views(set.items@),
            views(items@) == all.take(i as int),
        decreases set.items.len() - i,
    {
        let ghost before = views(items@);
        let text = copy_chars(&set.items[i]);
        assert(text@ == all[i as int]);
        items.push(text);
        assert(views(items@) =~= before.push(text@));
        i = i + 1;
        assert(all.take(i as int) =~= all.take(i as int - 1).push(all[i as int - 1]));
    }
    assert(all.take(i as int) =~= all);
    TextSet { items }
}

impl Lists {
    pub open spec fn wf(&self) -> bool {
        &&& self.domains.wf()
        &&& self.exceptions.wf()
        &&& self.important.wf()
        &&& self.cancelled.wf()
        &&& self.allowed.wf()
    }

    pub fn new() -> (r: Lists)
        ensures
            r.wf(),
            r@ == no_lists(),
    {
        Lists {
            domains: TextSet::new(),
            exceptions: TextSet::new(),
            important: TextSet::new(),
            cancelled: TextSet::new(),
            allowed: AllowTable::new(),
        }
    }

    /// The domains that are allowed below a filter's domain, with those of its list.
    fn allowed_set(&self, domain: &[char], list: &[char]) -> (r: Option<TextSet>)
        requires
            self.wf(),
        ensures
            match allowed_with(allowed_below(self.allowed@, domain@), split(list@, '|')) {
                Some(set) => r is Some && r->0.wf() && r->0@ == set,
                None => r is None,
            },
    {
        let mut set = match self.allowed.find(domain) {
            Some(i) => copy_set(&self.allowed.sets[i]),
            None => TextSet::new(),
        };
        let ghost start = allowed_below(self.allowed@, domain@);
        assert(set@ == start);
        let values = split_at_char(list, '|');
        let ghost all = split(list@, '|');
        let mut i: usize = 0;
        while i < values.len()
            invariant
                i <= values.len(),
                all == views(values@),
                all == split(list@, '|'),
                start == allowed_below(self.allowed@, domain@),
                set.wf(),
                allowed_with(start, all.take(i as int)) == Some(set@),
            decreases values.len() - i,
        {
            let value = &values[i];
            let ghost next = all.take(i as int + 1);
            assert(next.drop_last() =~= all.take(i as int));
            assert(next.last() == value@);
            if !is_listed_name(value) || set.len() >= MAX_BLOCKLIST_DENYALLOW_DOMAINS {
                proof {
                    allowed_with_none_stays(start, all, i as int + 1);
                }
                return None;
            }
            let name = to_lower(value);
            set.insert(&name);
            i = i + 1;
        }
        assert(all.take(i as int) =~= all);
        Some(set)
    }

    /// Adds one filter. After an error the lists are not used again.
    fn add(&mut self, entry: &Entry) -> (r: Result<(), String>)
        requires
            old(self).wf(),
        ensures
            final(self).wf(),
            match with_entry(old(self)@, entry@) {
                Ok(lists) => r is Ok && final(self)@ == lists,
                Err(reason) => r is Err && r->Err_0@ == reason,
            },
    {
        match &entry.allowed {
            Some(list) => {
                if entry.exception || list.len() == 0 {
                    return Err("denyallow requires a blocking filter and domain list".to_owned());
                }
                match self.allowed_set(&entry.domain, list) {
                    Some(set) => {
                        self.allowed.put(&entry.domain, set);
                    },
                    None => {
                        return Err("denyallow contains an invalid or excessive domain".to_owned());
                    },
                }
            },
            None => {},
        }
        self.domains.insert(&entry.domain);
        if entry.exception {
            self.exceptions.insert(&entry.domain);
        } else if entry.important {
            self.important.insert(&entry.domain);
        }
        if entry.cancelled {
            self.cancelled.insert(&entry.domain);
        }
        if self.domains.len() > MAX_LISTED_DOMAINS {
            return Err(ending_in_number("domain count exceeds ", MAX_LISTED_DOMAINS as u64));
        }
        Ok(())
    }
}

// ---- lines and sources ---------------------------------------------------------------

/// The filters of a line: what follows a `#` is a comment, a line that starts with `!` is one,
/// and an address at the start of a hosts line is skipped.
pub open spec fn line_fields(line: Seq<char>) -> Seq<Seq<char>> {
    let body = trimmed(line.take(index_of(line, '#')));
    let fields = words(body);
    if body.len() == 0 || body[0] == '!' {
        Seq::empty()
    } else if fields.len() > 0 && address(fields[0]) is Some {
        fields.skip(1)
    } else {
        fields
    }
}

pub open spec fn with_fields(lists: ListsView, fields: Seq<Seq<char>>) -> Result<ListsView, Seq<char>>
    decreases fields.len(),
{
    if fields.len() == 0 {
        Ok(lists)
    } else {
        match with_fields(lists, fields.drop_last()) {
            Err(reason) => Err(reason),
            Ok(before) => match entry(fields.last()) {
                Err(reason) => Err(reason),
                Ok(found) => with_entry(before, found),
            },
        }
    }
}

pub open spec fn with_line(lists: ListsView, line: Seq<char>) -> Result<ListsView, Seq<char>> {
    if byte_len(line) > MAX_BLOCKLIST_LINE_BYTES {
        Err("line exceeds "@ + decimal(MAX_BLOCKLIST_LINE_BYTES as nat) + " bytes"@)
    } else {
        with_fields(lists, line_fields(line))
    }
}

pub open spec fn with_lines(lists: ListsView, all: Seq<Seq<char>>) -> Result<ListsView, Seq<char>>
    decreases all.len(),
{
    if all.len() == 0 {
        Ok(lists)
    } else {
        match with_lines(lists, all.drop_last()) {
            Err(reason) => Err(reason),
            Ok(before) => with_line(before, all.last()),
        }
    }
}

/// A list source: its path, and what reading it gave.
#[derive(Debug)]
pub struct BlocklistSource {
    pub path: String,
    pub contents: Result<Vec<u8>, String>,
}

/// The value of a source.
pub struct SourceView {
    pub path: Seq<char>,
    pub contents: Result<Seq<u8>, Seq<char>>,
}

impl View for BlocklistSource {
    type V = SourceView;

    open spec fn view(&self) -> SourceView {
        SourceView {
            path: self.path@,
            contents: match self.contents {
                Ok(bytes) => Ok(bytes@),
                Err(reason) => Err(reason@),
            },
        }
    }
}

pub open spec fn source_views(list: Seq<BlocklistSource>) -> Seq<SourceView> {
    Seq::new(list.len(), |i: int| list[i]@)
}

/// The lists, and the bytes read so far, with one more source.
pub open spec fn with_source(lists: ListsView, total: nat, source: SourceView) -> Result<
    (ListsView, nat),
    ErrorView,
> {
    if byte_len(source.path) > MAX_BLOCKLIST_PATH_BYTES {
        Err(
            list_error(
                source.path,
                "path exceeds "@ + decimal(MAX_BLOCKLIST_PATH_BYTES as nat) + " bytes"@,
            ),
        )
    } else {
        match source.contents {
            Err(reason) => Err(list_error(source.path, reason)),
            Ok(bytes) => if total + bytes.len() > MAX_BLOCKLIST_TOTAL_BYTES {
                Err(
                    list_error(
                        "<table>"@,
                        "aggregate files exceed "@ + decimal(MAX_BLOCKLIST_TOTAL_BYTES as nat)
                            + " bytes"@,
                    ),
                )
            } else if !valid_utf8(bytes) {
                Err(list_error(source.path, "source is not UTF-8: "@ + utf8_fault(bytes)))
            } else {
                match with_lines(lists, lines(decode_utf8(bytes))) {
                    Err(reason) => Err(list_error(source.path, reason)),
                    Ok(next) => Ok((next, total + bytes.len())),
                }
            },
        }
    }
}

pub open spec fn with_sources(sources: Seq<SourceView>) -> Result<(ListsView, nat), ErrorView>
    decreases sources.len(),
{
    if sources.len() == 0 {
        Ok((no_lists(), 0))
    } else {
        match with_sources(sources.drop_last()) {
            Err(error) => Err(error),
            Ok((lists, total)) => with_source(lists, total, sources.last()),
        }
    }
}

/// What all sources say, or why they are refused: the first fault counts.
pub open spec fn collected(sources: Seq<SourceView>) -> Result<ListsView, ErrorView> {
    if sources.len() > MAX_BLOCKLIST_PATHS {
        Err(list_error("<table>"@, "source count exceeds "@ + decimal(MAX_BLOCKLIST_PATHS as nat)))
    } else {
        match with_sources(sources) {
            Ok((lists, _)) => Ok(lists),
            Err(error) => Err(error),
        }
    }
}

proof fn with_fields_error_stays(lists: ListsView, fields: Seq<Seq<char>>, n: int)
    requires
        0 <= n <= fields.len(),
        with_fields(lists, fields.take(n)) is Err,
    ensures
        with_fields(lists, fields) == with_fields(lists, fields.take(n)),
    decreases fields.len(),
{
    if n == fields.len() {
        assert(fields.take(n) =~= fields);
    } else {
        assert(fields.drop_last().take(n) =~= fields.take(n));
        with_fields_error_stays(lists, fields.drop_last(), n);
    }
}

proof fn with_lines_error_stays(lists: ListsView, all: Seq<Seq<char>>, n: int)
    requires
        0 <= n <= all.len(),
        with_lines(lists, all.take(n)) is Err,
    ensures
        with_lines(lists, all) == with_lines(lists, all.take(n)),
    decreases all.len(),
{
    if n == all.len() {
        assert(all.take(n) =~= all);
    } else {
        assert(all.drop_last().take(n) =~= all.take(n));
        with_lines_error_stays(lists, all.drop_last(), n);
    }
}

proof fn with_sources_error_stays(sources: Seq<SourceView>, n: int)
    requires
        0 <= n <= sources.len(),
        with_sources(sources.take(n)) is Err,
    ensures
        with_sources(sources) == with_sources(sources.take(n)),
    decreases sources.len(),
{
    if n == sources.len() {
        assert(sources.take(n) =~= sources);
    } else {
        assert(sources.drop_last().take(n) =~= sources.take(n));
        with_sources_error_stays(sources.drop_last(), n);
    }
}

/// The filters of a line.
fn read_fields(line: &[char]) -> (r: Vec<Vec<char>>)
    ensures
        views(r@) == line_fields(line@),
{
    let at: usize = find_char(line, '#');
    assert(line@.subrange(0, at as int) == line@.take(at as int));
    let body = trim(slice_subrange(line, 0, at));
    if body.len() == 0 || body[0] == '!' {
        let none: Vec<Vec<char>> = Vec::new();
        assert(views(none@) =~= Seq::<Seq<char>>::empty());
        return none;
    }
    let mut fields = split_words(&body);
    let ghost all = views(fields@);
    if fields.len() > 0 {
        assert(all[0] == fields[0]@);
        if parse_address(&fields[0]).is_some() {
            let _address = fields.remove(0);
            assert(views(fields@) =~= all.skip(1));
        }
    }
    fields
}

impl Lists {
    fn add_line(&mut self, line: &[char]) -> (r: Result<(), String>)
        requires
            old(self).wf(),
        ensures
            final(self).wf(),
            match with_line(old(self)@, line@) {
                Ok(lists) => r is Ok && final(self)@ == lists,
                Err(reason) => r is Err && r->Err_0@ == reason,
            },
    {
        if utf8_len(line) > MAX_BLOCKLIST_LINE_BYTES {
            return Err(with_number("line exceeds ", MAX_BLOCKLIST_LINE_BYTES as u64, " bytes"));
        }
        let fields = read_fields(line);
        let ghost all = line_fields(line@);
        let ghost start = self@;
        let mut i: usize = 0;
        while i < fields.len()
            invariant
                i <= fields.len(),
                all == views(fields@),
                all == line_fields(line@),
                byte_len(line@) <= MAX_BLOCKLIST_LINE_BYTES,
                start == old(self)@,
                self.wf(),
                with_fields(start, all.take(i as int)) == Ok::<ListsView, Seq<char>>(self@),
            decreases fields.len() - i,
        {
            let ghost next = all.take(i as int + 1);
            assert(next.drop_last() =~= all.take(i as int));
            assert(next.last() == fields[i as int]@);
            match parse_entry(&fields[i]) {
                Ok(found) => {
                    match self.add(&found) {
                        Ok(()) => {},
                        Err(reason) => {
                            proof {
                                with_fields_error_stays(start, all, i as int + 1);
                            }
                            return Err(reason);
                        },
                    }
                },
                Err(reason) => {
                    proof {
                        with_fields_error_stays(start, all, i as int + 1);
                    }
                    return Err(reason);
                },
            }
            i = i + 1;
        }
        assert(all.take(i as int) =~= all);
        Ok(())
    }

    fn add_text(&mut self, text: &[char]) -> (r: Result<(), String>)
        requires
            old(self).wf(),
        ensures
            final(self).wf(),
            match with_lines(old(self)@, lines(text@)) {
                Ok(lists) => r is Ok && final(self)@ == lists,
                Err(reason) => r is Err && r->Err_0@ == reason,
            },
    {
        let list = split_lines(text);
        let ghost all = lines(text@);
        let ghost start = self@;
        let mut i: usize = 0;
        while i < list.len()
            invariant
                i <= list.len(),
                all == views(list@),
                all == lines(text@),
                start == old(self)@,
                self.wf(),
                with_lines(start, all.take(i as int)) == Ok::<ListsView, Seq<char>>(self@),
            decreases list.len() - i,
        {
            let ghost next = all.take(i as int + 1);
            assert(next.drop_last() =~= all.take(i as int));
            assert(next.last() == list[i as int]@);
            match self.add_line(&list[i]) {
                Ok(()) => {},
                Err(reason) => {
                    proof {
                        with_lines_error_stays(start, all, i as int + 1);
                    }
                    return Err(reason);
                },
            }
            i = i + 1;
        }
        assert(all.take(i as int) =~= all);
        Ok(())
    }

    /// Adds one source; `total` is the number of bytes read before.
    fn add_source(&mut self, total: u64, source: &BlocklistSource) -> (r: Result<u64, PolicyError>)
        requires
            old(self).wf(),
            total <= MAX_BLOCKLIST_TOTAL_BYTES,
        ensures
            final(self).wf(),
            match with_source(old(self)@, total as nat, source@) {
                Ok((lists, sum)) => r is Ok && final(self)@ == lists && r->Ok_0 == sum && sum
                    <= MAX_BLOCKLIST_TOTAL_BYTES,
                Err(error) => r is Err && r->Err_0@ == error,
            },
    {
        if str_len(source.path.as_str()) > MAX_BLOCKLIST_PATH_BYTES {
            return Err(
                PolicyError::InvalidBlocklist {
                    path: source.path.clone(),
                    reason: with_number("path exceeds ", MAX_BLOCKLIST_PATH_BYTES as u64, " bytes"),
                },
            );
        }
        match &source.contents {
            Err(reason) => Err(
                PolicyError::InvalidBlocklist { path: source.path.clone(), reason: reason.clone() },
            ),
            Ok(bytes) => {
                let sum: u64 = total.saturating_add(bytes.len() as u64);
                if sum > MAX_BLOCKLIST_TOTAL_BYTES {
                    return Err(
                        PolicyError::InvalidBlocklist {
                            path: "<table>".to_owned(),
                            reason: with_number(
                                "aggregate files exceed ",
                                MAX_BLOCKLIST_TOTAL_BYTES,
                                " bytes",
                            ),
                        },
                    );
                }
                match decode_text(bytes) {
                    Err(fault) => Err(
                        PolicyError::InvalidBlocklist {
                            path: source.path.clone(),
                            reason: joined("source is not UTF-8: ", fault.as_str()),
                        },
                    ),
                    Ok(text) => {
                        let chars = to_chars(text.as_str());
                        match self.add_text(&chars) {
                            Ok(()) => Ok(sum),
                            Err(reason) => Err(
                                PolicyError::InvalidBlocklist {
                                    path: source.path.clone(),
                                    reason,
                                },
                            ),
                        }
                    },
                }
            },
        }
    }
}

// ---- rules ---------------------------------------------------------------------------

/// The number of the `n`-th rule of the lists: they count down from the highest.
pub open spec fn list_id(n: int) -> u32 {
    if n > u32::MAX {
        0
    } else {
        (u32::MAX - n) as u32
    }
}

/// A rule for every client and every question.
pub open spec fn plain_rule(id: u32, domain: Seq<char>, action: Action, priority: i32) -> RuleView {
    RuleView {
        enabled: true,
        id,
        domain,
        action,
        priority,
        qtype: None,
        qtypes: Seq::empty(),
        qclass: None,
        qclasses: Seq::empty(),
        client: None,
        client_cidr: None,
        client_cidrs: Seq::empty(),
        client_identity: None,
    }
}

/// A domain, or everything below it.
pub open spec fn covering(domain: Seq<char>, below: bool) -> Seq<char> {
    if below {
        crate::policy::wildcard_prefix() + domain
    } else {
        domain
    }
}

/// The domains that are allowed below the given ones, in order.
pub open spec fn allowed_in_order(
    keys: Seq<Seq<char>>,
    allowed: Map<Seq<char>, Set<Seq<char>>>,
) -> Seq<Seq<char>>
    decreases keys.len(),
{
    if keys.len() == 0 {
        Seq::empty()
    } else {
        allowed_in_order(keys.drop_last(), allowed) + sorted(allowed[keys.last()])
    }
}

/// What remains once the cancelled filters are taken out.
pub open spec fn remaining(lists: ListsView) -> ListsView {
    ListsView {
        domains: lists.domains.difference(lists.cancelled),
        exceptions: lists.exceptions.difference(lists.cancelled),
        important: lists.important.difference(lists.cancelled),
        cancelled: lists.cancelled,
        allowed: lists.allowed.remove_keys(lists.cancelled),
    }
}

/// The action and the priority of a listed domain: exceptions come first, then the important
/// filters, then the others.
pub open spec fn list_action(lists: ListsView, domain: Seq<char>) -> Action {
    if lists.exceptions.contains(domain) {
        Action::Pass
    } else {
        Action::Nxdomain
    }
}

pub open spec fn list_priority(lists: ListsView, domain: Seq<char>) -> i32 {
    if lists.exceptions.contains(domain) {
        i32::MAX
    } else if lists.important.contains(domain) {
        (i32::MAX - 1) as i32
    } else {
        (i32::MAX - 2) as i32
    }
}

/// The rules of the lists: two for each domain in order, for itself and for what lies below
/// it, and then two for each domain that is allowed below a filter.
pub open spec fn list_rules(lists: ListsView) -> Seq<RuleView> {
    let domains = sorted(lists.domains);
    let allowed = allowed_in_order(sorted(lists.allowed.dom()), lists.allowed);
    Seq::new(
        2 * domains.len() + 2 * allowed.len(),
        |i: int|
            if i < 2 * domains.len() {
                plain_rule(
                    list_id(i),
                    covering(domains[i / 2], i % 2 == 1),
                    list_action(lists, domains[i / 2]),
                    list_priority(lists, domains[i / 2]),
                )
            } else {
                plain_rule(
                    list_id(i),
                    covering(allowed[(i - 2 * domains.len()) / 2], i % 2 == 1),
                    Action::Pass,
                    i32::MAX,
                )
            },
    )
}

fn make_rule(id: u32, domain: &[char], below: bool, action: Action, priority: i32) -> (r: RuleConfig)
    ensures
        r@ == plain_rule(id, covering(domain@, below), action, priority),
{
    let name = if below {
        let mut text = to_chars("*.");
        proof {
            reveal_strlit("*.");
            assert("*."@ =~= crate::policy::wildcard_prefix());
        }
        push_all(&mut text, domain);
        to_text(&text)
    } else {
        to_text(domain)
    };
    let r = RuleConfig {
        enabled: true,
        id,
        domain: name,
        action,
        priority,
        qtype: None,
        qtypes: Vec::new(),
        qclass: None,
        qclasses: Vec::new(),
        client: None,
        client_cidr: None,
        client_cidrs: Vec::new(),
        client_identity: None,
    };
    assert(r@.client_cidrs =~= Seq::<Seq<char>>::empty());
    r
}

impl Lists {
    /// Takes the cancelled filters out.
    fn drop_cancelled(&mut self)
        requires
            old(self).wf(),
        ensures
            final(self).wf(),
            final(self)@ == remaining(old(self)@),
    {
        let ghost start = self@;
        let ghost all = views(self.cancelled.items@);
        let mut i: usize = 0;
        assert(all.take(0).to_set() =~= Set::<Seq<char>>::empty());
        assert(start.domains.difference(all.take(0).to_set()) =~= start.domains);
        assert(start.exceptions.difference(all.take(0).to_set()) =~= start.exceptions);
        assert(start.important.difference(all.take(0).to_set()) =~= start.important);
        assert(start.allowed.remove_keys(all.take(0).to_set()) =~= start.allowed);
        while i < self.cancelled.items.len()
            invariant
                i <= self.cancelled.items.len(),
                all == views(self.cancelled.items@),
                self.wf(),
                self.cancelled@ == start.cancelled,
                self.domains@ == start.domains.difference(all.take(i as int).to_set()),
                self.exceptions@ == start.exceptions.difference(all.take(i as int).to_set()),
                self.important@ == start.important.difference(all.take(i as int).to_set()),
                self.allowed@ == start.allowed.remove_keys(all.take(i as int).to_set()),
            decreases self.cancelled.items.len() - i,
        {
            let name = copy_chars(&self.cancelled.items[i]);
            assert(name@ == all[i as int]);
            self.domains.remove(&name);
            self.exceptions.remove(&name);
            self.important.remove(&name);
            self.allowed.remove(&name);
            proof {
                let before = all.take(i as int);
                let next = all.take(i as int + 1);
                assert(next =~= before.push(name@));
                assert forall|t: Seq<char>| next.to_set().contains(t) == (before.to_set().contains(
                    t,
                ) || t == name@) by {
                    if next.contains(t) {
                        let k = choose|k: int| 0 <= k < next.len() && next[k] == t;
                        if k < before.len() {
                            assert(before[k] == t);
                        }
                    }
                    if before.contains(t) {
                        let k = choose|k: int| 0 <= k < before.len() && before[k] == t;
                        assert(next[k] == t);
                    }
                    assert(next[i as int] == name@);
                }
                assert(self.domains@ =~= start.domains.difference(next.to_set()));
                assert(self.exceptions@ =~= start.exceptions.difference(next.to_set()));
                assert(self.important@ =~= start.important.difference(next.to_set()));
                assert(self.allowed@ =~= start.allowed.remove_keys(next.to_set()));
            }
            i = i + 1;
        }
        assert(all.take(i as int) =~= all);
        assert(all.to_set() == start.cancelled);
    }

    /// The domains that are allowed below a filter, in order.
    fn allowed_list(&self) -> (r: Vec<Vec<char>>)
        requires
            self.wf(),
        ensures
            views(r@) == allowed_in_order(sorted(self.allowed@.dom()), self.allowed@),
    {
        let ghost keys = views(self.allowed.keys.items@);
        let ghost map = self.allowed@;
        proof {
            sorted_is(keys);
            assert(map.dom() =~= keys.to_set());
        }
        let mut out: Vec<Vec<char>> = Vec::new();
        let mut i: usize = 0;
        assert(views(out@) =~= Seq::<Seq<char>>::empty());
        while i < self.allowed.sets.len()
            invariant
                i <= self.allowed.sets.len(),
                self.wf(),
                keys == views(self.allowed.keys.items@),
                map == self.allowed@,
                views(out@) == allowed_in_order(keys.take(i as int), map),
            decreases self.allowed.sets.len() - i,
        {
            let set = &self.allowed.sets[i];
            let ghost items = views(set.items@);
            let ghost start = views(out@);
            proof {
                assert(self.allowed.sets@[i as int].wf());
                allow_map_at(keys, self.allowed.sets@, i as int);
                sorted_is(items);
                assert(keys.take(i as int + 1).drop_last() =~= keys.take(i as int));
                assert(keys.take(i as int + 1).last() == keys[i as int]);
                assert(start + items.take(0) =~= start);
            }
            let mut k: usize = 0;
            while k < set.items.len()
                invariant
                    k <= set.items.len(),
                    items == views(set.items@),
                    views(out@) == start + items.take(k as int),
                decreases set.items.len() - k,
            {
                let ghost before = views(out@);
                let text = copy_chars(&set.items[k]);
                assert(text@ == items[k as int]);
                out.push(text);
                assert(views(out@) =~= before.push(text@));
                k = k + 1;
                assert(views(out@) =~= start + items.take(k as int));
            }
            assert(items.take(k as int) =~= items);
            i = i + 1;
        }
        assert(keys.take(i as int) =~= keys);
        out
    }

    /// The rules that the lists stand for.
    fn rules(&self) -> (r: Vec<RuleConfig>)
        requires
            self.wf(),
        ensures
            rule_views(r@) == list_rules(self@),
    {
        let ghost lists = self@;
        let ghost domains = views(self.domains.items@);
        let ghost wanted = list_rules(lists);
        proof {
            sorted_is(domains);
        }
        let allowed = self.allowed_list();
        let ghost extra = views(allowed@);
        let mut out: Vec<RuleConfig> = Vec::new();
        let mut next_id: u32 = u32::MAX;
        let mut i: usize = 0;
        assert(rule_views(out@) =~= wanted.take(0));
        while i < self.domains.items.len()
            invariant
                i <= self.domains.items.len(),
                self.wf(),
                lists == self@,
                domains == views(self.domains.items@),
                domains == sorted(lists.domains),
                extra == allowed_in_order(sorted(lists.allowed.dom()), lists.allowed),
                wanted == list_rules(lists),
                next_id == list_id(2 * i),
                rule_views(out@) == wanted.take(2 * i),
            decreases self.domains.items.len() - i,
        {
            let domain = &self.domains.items[i];
            assert(domains[i as int] == domain@);
            let exception = self.exceptions.contains(domain);
            let action = if exception {
                Action::Pass
            } else {
                Action::Nxdomain
            };
            let priority: i32 = if exception {
                i32::MAX
            } else if self.important.contains(domain) {
                i32::MAX - 1
            } else {
                i32::MAX - 2
            };
            let ghost before = rule_views(out@);
            let first = make_rule(next_id, domain, false, action, priority);
            let second = make_rule(next_id.saturating_sub(1), domain, true, action, priority);
            next_id = next_id.saturating_sub(2);
            out.push(first);
            out.push(second);
            proof {
                assert(rule_views(out@) =~= before.push(first@).push(second@));
                assert(wanted[2 * i] == first@) by {
                    assert((2 * i) / 2 == i && (2 * i) % 2 == 0);
                }
                assert(wanted[2 * i + 1] == second@) by {
                    assert((2 * i + 1) / 2 == i && (2 * i + 1) % 2 == 1);
                }
                assert(wanted.take(2 * (i + 1)) =~= wanted.take(2 * i).push(wanted[2 * i]).push(
                    wanted[2 * i + 1],
                ));
            }
            i = i + 1;
        }
        let ghost n = 2 * domains.len();
        let mut k: usize = 0;
        while k < allowed.len()
            invariant
                k <= allowed.len(),
                lists == self@,
                n == 2 * domains.len(),
                domains == sorted(lists.domains),
                extra == views(allowed@),
                extra == allowed_in_order(sorted(lists.allowed.dom()), lists.allowed),
                wanted == list_rules(lists),
                next_id == list_id(n + 2 * k),
                rule_views(out@) == wanted.take(n + 2 * k),
            decreases allowed.len() - k,
        {
            let domain = &allowed[k];
            assert(extra[k as int] == domain@);
            let ghost before = rule_views(out@);
            let first = make_rule(next_id, domain, false, Action::Pass, i32::MAX);
            let second = make_rule(
                next_id.saturating_sub(1),
                domain,
                true,
                Action::Pass,
                i32::MAX,
            );
            next_id = next_id.saturating_sub(2);
            out.push(first);
            out.push(second);
            proof {
                assert(rule_views(out@) =~= before.push(first@).push(second@));
                let at = n + 2 * k;
                assert(wanted[at] == first@) by {
                    assert((at - n) / 2 == k);
                    assert(at % 2 == 0);
                }
                assert(wanted[at + 1] == second@) by {
                    assert((at + 1 - n) / 2 == k);
                    assert((at + 1) % 2 == 1);
                }
                assert(wanted.take(at + 2) =~= wanted.take(at).push(wanted[at]).push(
                    wanted[at + 1],
                ));
            }
            k = k + 1;
        }
        assert(wanted.take(n + 2 * k) =~= wanted);
        out
    }
}

/// Reads the sources and makes rules of them: listed domains are answered as not existing,
/// exceptions and allowed domains pass, cancelled filters count for nothing.
pub fn load_blocklists(sources: &[BlocklistSource]) -> (r: Result<Vec<RuleConfig>, PolicyError>)
    ensures
        match collected(source_views(sources@)) {
            Ok(lists) => r is Ok && rule_views(r->Ok_0@) == list_rules(remaining(lists)),
            Err(error) => r is Err && r->Err_0@ == error,
        },
{
    let ghost all = source_views(sources@);
    if sources.len() > MAX_BLOCKLIST_PATHS {
        return Err(
            PolicyError::InvalidBlocklist {
                path: "<table>".to_owned(),
                reason: ending_in_number("source count exceeds ", MAX_BLOCKLIST_PATHS as u64),
            },
        );
    }
    let mut lists = Lists::new();
    let mut total: u64 = 0;
    let mut i: usize = 0;
    while i < sources.len()
        invariant
            i <= sources.len() <= MAX_BLOCKLIST_PATHS,
            all == source_views(sources@),
            lists.wf(),
            total <= MAX_BLOCKLIST_TOTAL_BYTES,
            with_sources(all.take(i as int)) == Ok::<(ListsView, nat), ErrorView>(
                (lists@, total as nat),
            ),
        decreases sources.len() - i,
    {
        let ghost next = all.take(i as int + 1);
        assert(next.drop_last() =~= all.take(i as int));
        assert(next.last() == sources[i as int]@);
        match lists.add_source(total, &sources[i]) {
            Ok(sum) => {
                total = sum;
            },
            Err(error) => {
                proof {
                    with_sources_error_stays(all, i as int + 1);
                }
                return Err(error);
            },
        }
        i = i + 1;
    }
    assert(all.take(i as int) =~= all);
    lists.drop_cancelled();
    Ok(lists.rules())
}

/// The reason why a source file is not read at all.
pub fn size_fault(bytes: u64) -> (r: Option<String>)
    ensures
        r is Some <==> bytes > MAX_BLOCKLIST_BYTES,
        r is Some ==> r->0@ == "file exceeds "@ + decimal(MAX_BLOCKLIST_BYTES as nat) + " bytes"@,
{
    if bytes > MAX_BLOCKLIST_BYTES {
        Some(with_number("file exceeds ", MAX_BLOCKLIST_BYTES, " bytes"))
    } else {
        None
    }
}

/// Adds a part of a remote source to what came before it. A source that gets too long is given up,
/// with nothing added.
pub fn append_part(contents: &mut Vec<u8>, part: &[u8], max_bytes: usize) -> (r: Result<(), String>)
    ensures
        ({
            let sum = old(contents)@.len() + part@.len();
            if sum > usize::MAX {
                &&& r is Err
                &&& r->Err_0@ == "remote source size overflow"@
                &&& final(contents)@ == old(contents)@
            } else if sum > max_bytes {
                &&& r is Err
                &&& r->Err_0@ == "remote source exceeds "@ + decimal(max_bytes as nat) + " bytes"@
                &&& final(contents)@ == old(contents)@
            } else {
                r is Ok && final(contents)@ == old(contents)@ + part@
            }
        }),
{
    match contents.len().checked_add(part.len()) {
        None => Err("remote source size overflow".to_owned()),
        Some(next) => {
            if next > max_bytes {
                Err(with_number("remote source exceeds ", max_bytes as u64, " bytes"))
            } else {
                contents.extend_from_slice(part);
                Ok(())
            }
        },
    }
}

/// A cancelled filter leaves no rule of its domain's own, wherever it stands.
pub proof fn cancelled_domains_have_no_rule(lists: ListsView, domain: Seq<char>)
    requires
        lists.cancelled.contains(domain),
    ensures
        !remaining(lists).domains.contains(domain),
        !remaining(lists).exceptions.contains(domain),
        !remaining(lists).important.contains(domain),
        !remaining(lists).allowed.contains_key(domain),
{
}

/// Rules of exceptions outrank those of every other filter.
pub proof fn exceptions_outrank_filters(lists: ListsView, exception: Seq<char>, other: Seq<char>)
    requires
        lists.exceptions.contains(exception),
        !lists.exceptions.contains(other),
    ensures
        list_action(lists, exception) == Action::Pass,
        list_action(lists, other) == Action::Nxdomain,
        list_priority(lists, exception) > list_priority(lists, other),
{
}

// ---- sources by path -----------------------------------------------------------------

/// The position of the first source that was read under the path.
pub open spec fn find_source(files: Seq<SourceView>, path: Seq<char>) -> Option<int>
    decreases files.len(),
{
    if files.len() == 0 {
        None
    } else {
        match find_source(files.drop_last(), path) {
            Some(i) => Some(i),
            None => if files.last().path == path {
                Some(files.len() - 1)
            } else {
                None
            },
        }
    }
}

/// What reading a path gave; a path that was not read cannot be used.
pub open spec fn read_of(files: Seq<SourceView>, path: Seq<char>) -> SourceView {
    match find_source(files, path) {
        Some(i) => files[i],
        None => SourceView { path, contents: Err("source was not read"@) },
    }
}

/// What reading each of the paths gave.
pub open spec fn gathered(files: Seq<SourceView>, paths: Seq<Seq<char>>) -> Seq<SourceView> {
    Seq::new(paths.len(), |i: int| read_of(files, paths[i]))
}

/// The rules of the lists at the paths.
pub open spec fn rules_at(files: Seq<SourceView>, paths: Seq<Seq<char>>) -> Result<
    Seq<RuleView>,
    ErrorView,
> {
    match collected(gathered(files, paths)) {
        Ok(lists) => Ok(list_rules(remaining(lists))),
        Err(error) => Err(error),
    }
}

proof fn find_source_stays(files: Seq<SourceView>, path: Seq<char>, i: int)
    requires
        0 <= i < files.len(),
        find_source(files.take(i + 1), path) == Some(i),
    ensures
        find_source(files, path) == Some(i),
    decreases files.len(),
{
    if files.len() == i + 1 {
        assert(files.take(i + 1) =~= files);
    } else {
        assert(files.drop_last().take(i + 1) =~= files.take(i + 1));
        find_source_stays(files.drop_last(), path, i);
    }
}

impl BlocklistSource {
    pub fn copied(&self) -> (r: BlocklistSource)
        ensures
            r@ == self@,
    {
        BlocklistSource {
            path: self.path.clone(),
            contents: match &self.contents {
                Ok(bytes) => Ok(copy_list(bytes)),
                Err(reason) => Err(reason.clone()),
            },
        }
    }
}

fn pick_source(files: &[BlocklistSource], path: &str) -> (r: BlocklistSource)
    ensures
        r@ == read_of(source_views(files@), path@),
{
    let ghost all = source_views(files@);
    let mut i: usize = 0;
    while i < files.len()
        invariant
            i <= files.len(),
            all == source_views(files@),
            find_source(all.take(i as int), path@) is None,
        decreases files.len() - i,
    {
        let ghost next = all.take(i as int + 1);
        assert(next.drop_last() =~= all.take(i as int));
        assert(next.last() == files[i as int]@);
        if same_str(files[i].path.as_str(), path) {
            proof {
                find_source_stays(all, path@, i as int);
            }
            return files[i].copied();
        }
        i = i + 1;
    }
    assert(all.take(i as int) =~= all);
    BlocklistSource { path: path.to_owned(), contents: Err("source was not read".to_owned()) }
}

/// Makes rules of the lists at the paths, from what reading gave.
pub fn load_blocklists_at(files: &[BlocklistSource], paths: &[String]) -> (r: Result<
    Vec<RuleConfig>,
    PolicyError,
>)
    ensures
        match rules_at(source_views(files@), texts(paths@)) {
            Ok(rules) => r is Ok && rule_views(r->Ok_0@) == rules,
            Err(error) => r is Err && r->Err_0@ == error,
        },
{
    let ghost all = gathered(source_views(files@), texts(paths@));
    let mut sources: Vec<BlocklistSource> = Vec::new();
    let mut i: usize = 0;
    while i < paths.len()
        invariant
            i <= paths.len(),
            all == gathered(source_views(files@), texts(paths@)),
            source_views(sources@) == all.take(i as int),
        decreases paths.len() - i,
    {
        let ghost before = source_views(sources@);
        let source = pick_source(files, paths[i].as_str());
        assert(source@ == all[i as int]);
        sources.push(source);
        assert(source_views(sources@) =~= before.push(source@));
        i = i + 1;
        assert(source_views(sources@) =~= all.take(i as int));
    }
    assert(all.take(i as int) =~= all);
    load_blocklists(&sources)
}

// ---- the order of lines --------------------------------------------------------------

/// The filters of some fields.
pub open spec fn field_filters(fields: Seq<Seq<char>>) -> Set<EntryView> {
    Set::new(
        |e: EntryView|
            exists|i: int|
                0 <= i < fields.len() && entry(#[trigger] fields[i]) == Ok::<EntryView, Seq<char>>(e),
    )
}

/// The filters of a set of lines.
pub open spec fn line_filters(held: Set<Seq<char>>) -> Set<EntryView> {
    Set::new(
        |e: EntryView|
            exists|l: Seq<char>|
                #[trigger] held.contains(l) && field_filters(line_fields(l)).contains(e),
    )
}

/// The lines that sources hold.
pub open spec fn lines_held(sources: Seq<SourceView>) -> Set<Seq<char>>
    decreases sources.len(),
{
    if sources.len() == 0 {
        Set::empty()
    } else {
        match sources.last().contents {
            Ok(bytes) => lines_held(sources.drop_last()).union(lines(decode_utf8(bytes)).to_set()),
            Err(_) => lines_held(sources.drop_last()),
        }
    }
}

proof fn fields_add_their_filters(filters: Set<EntryView>, fields: Seq<Seq<char>>)
    requires
        with_fields(said(filters), fields) is Ok,
    ensures
        with_fields(said(filters), fields)->Ok_0 == said(filters.union(field_filters(fields))),
    decreases fields.len(),
{
    if fields.len() == 0 {
        assert(filters.union(field_filters(fields)) =~= filters);
    } else {
        let front = fields.drop_last();
        fields_add_their_filters(filters, front);
        let found = entry(fields.last())->Ok_0;
        let before = filters.union(field_filters(front));
        one_more_filter(before, found);
        assert forall|e: EntryView| before.insert(found).contains(e) == filters.union(
            field_filters(fields),
        ).contains(e) by {
            if field_filters(front).contains(e) {
                let i = choose|i: int|
                    0 <= i < front.len() && entry(#[trigger] front[i]) == Ok::<
                        EntryView,
                        Seq<char>,
                    >(e);
                assert(fields[i] == front[i]);
            }
            if field_filters(fields).contains(e) {
                let i = choose|i: int|
                    0 <= i < fields.len() && entry(#[trigger] fields[i]) == Ok::<
                        EntryView,
                        Seq<char>,
                    >(e);
                if i < front.len() {
                    assert(front[i] == fields[i]);
                }
            }
            assert(entry(fields[fields.len() - 1]) == Ok::<EntryView, Seq<char>>(found));
        }
        assert(before.insert(found) =~= filters.union(field_filters(fields)));
    }
}

proof fn one_more_line(held: Set<Seq<char>>, line: Seq<char>)
    ensures
        line_filters(held.insert(line)) == line_filters(held).union(
            field_filters(line_fields(line)),
        ),
{
    let more = held.insert(line);
    let after = line_filters(held).union(field_filters(line_fields(line)));
    assert forall|e: EntryView| line_filters(more).contains(e) == after.contains(e) by {
        if line_filters(more).contains(e) {
            let l = choose|l: Seq<char>|
                #[trigger] more.contains(l) && field_filters(line_fields(l)).contains(e);
            if l != line {
                assert(held.contains(l));
            }
        }
        if line_filters(held).contains(e) {
            let l = choose|l: Seq<char>|
                #[trigger] held.contains(l) && field_filters(line_fields(l)).contains(e);
            assert(more.contains(l));
        }
        assert(more.contains(line));
    }
    assert(line_filters(more) =~= after);
}

proof fn lines_add_their_filters(held: Set<Seq<char>>, all: Seq<Seq<char>>)
    requires
        with_lines(said(line_filters(held)), all) is Ok,
    ensures
        with_lines(said(line_filters(held)), all)->Ok_0 == said(
            line_filters(held.union(all.to_set())),
        ),
    decreases all.len(),
{
    if all.len() == 0 {
        assert(held.union(all.to_set()) =~= held);
    } else {
        let front = all.drop_last();
        lines_add_their_filters(held, front);
        let before = held.union(front.to_set());
        fields_add_their_filters(line_filters(before), line_fields(all.last()));
        one_more_line(before, all.last());
        pushed_to_set(all, all.len() - 1);
        assert(all.take(all.len() as int) =~= all);
        assert(all.take(all.len() - 1) =~= front);
        assert(before.insert(all.last()) =~= held.union(all.to_set()));
    }
}

proof fn sources_say_what_their_lines_say(sources: Seq<SourceView>)
    requires
        with_sources(sources) is Ok,
    ensures
        with_sources(sources)->Ok_0.0 == said(line_filters(lines_held(sources))),
    decreases sources.len(),
{
    if sources.len() == 0 {
        let nothing = line_filters(Set::<Seq<char>>::empty());
        assert(nothing =~= Set::<EntryView>::empty());
        let start = said(nothing);
        assert(start.domains =~= no_lists().domains);
        assert(start.exceptions =~= no_lists().exceptions);
        assert(start.important =~= no_lists().important);
        assert(start.cancelled =~= no_lists().cancelled);
        assert(start.allowed =~= no_lists().allowed);
    } else {
        sources_say_what_their_lines_say(sources.drop_last());
        let bytes = sources.last().contents->Ok_0;
        lines_add_their_filters(lines_held(sources.drop_last()), lines(decode_utf8(bytes)));
    }
}

/// Accepted sources that hold the same lines give the same rules, in whatever order the lines come
/// and however they are split over the sources.
pub proof fn the_same_lines_give_the_same_rules(a: Seq<SourceView>, b: Seq<SourceView>)
    requires
        collected(a) is Ok,
        collected(b) is Ok,
        lines_held(a) == lines_held(b),
    ensures
        collected(a) == collected(b),
        list_rules(remaining(collected(a)->Ok_0)) == list_rules(remaining(collected(b)->Ok_0)),
{
    sources_say_what_their_lines_say(a);
    sources_say_what_their_lines_say(b);
}

// ---- the numbers of the rules --------------------------------------------------------

/// Lists within their bounds: so many domains, and so many allowed ones below each.
pub open spec fn bounded(lists: ListsView) -> bool {
    &&& lists.domains.finite()
    &&& lists.domains.len() <= MAX_LISTED_DOMAINS
    &&& lists.allowed.dom().subset_of(lists.domains)
    &&& forall|d: Seq<char>| #[trigger] lists.allowed.contains_key(d) ==> small(lists.allowed[d])
}

/// No more allowed domains than one filter may have.
pub open spec fn small(allowed: Set<Seq<char>>) -> bool {
    allowed.finite() && allowed.len() <= MAX_BLOCKLIST_DENYALLOW_DOMAINS
}

proof fn allowed_stay_small(seen: Set<Seq<char>>, list: Seq<Seq<char>>)
    requires
        small(seen),
        allowed_with(seen, list) is Some,
    ensures
        small(allowed_with(seen, list)->0),
    decreases list.len(),
{
    if list.len() > 0 {
        allowed_stay_small(seen, list.drop_last());
    }
}

proof fn entries_stay_bounded(lists: ListsView, entry: EntryView)
    requires
        bounded(lists),
        with_entry(lists, entry) is Ok,
    ensures
        bounded(with_entry(lists, entry)->Ok_0),
{
    let next = with_entry(lists, entry)->Ok_0;
    if entry.allowed is Some {
        allowed_stay_small(
            allowed_below(lists.allowed, entry.domain),
            split(entry.allowed->0, '|'),
        );
    }
    assert forall|d: Seq<char>| #[trigger] next.allowed.contains_key(d) implies small(
        next.allowed[d],
    ) by {
        if entry.allowed is None || d != entry.domain {
            assert(lists.allowed.contains_key(d));
        }
    }
}

proof fn fields_stay_bounded(lists: ListsView, fields: Seq<Seq<char>>)
    requires
        bounded(lists),
        with_fields(lists, fields) is Ok,
    ensures
        bounded(with_fields(lists, fields)->Ok_0),
    decreases fields.len(),
{
    if fields.len() > 0 {
        fields_stay_bounded(lists, fields.drop_last());
        entries_stay_bounded(
            with_fields(lists, fields.drop_last())->Ok_0,
            entry(fields.last())->Ok_0,
        );
    }
}

proof fn lines_stay_bounded(lists: ListsView, all: Seq<Seq<char>>)
    requires
        bounded(lists),
        with_lines(lists, all) is Ok,
    ensures
        bounded(with_lines(lists, all)->Ok_0),
    decreases all.len(),
{
    if all.len() > 0 {
        lines_stay_bounded(lists, all.drop_last());
        fields_stay_bounded(
            with_lines(lists, all.drop_last())->Ok_0,
            line_fields(all.last()),
        );
    }
}

proof fn sources_stay_bounded(sources: Seq<SourceView>)
    requires
        with_sources(sources) is Ok,
    ensures
        bounded(with_sources(sources)->Ok_0.0),
    decreases sources.len(),
{
    if sources.len() > 0 {
        sources_stay_bounded(sources.drop_last());
        lines_stay_bounded(
            with_sources(sources.drop_last())->Ok_0.0,
            lines(decode_utf8(sources.last().contents->Ok_0)),
        );
    }
}

proof fn allowed_in_order_is_bounded(
    keys: Seq<Seq<char>>,
    allowed: Map<Seq<char>, Set<Seq<char>>>,
)
    requires
        forall|i: int| 0 <= i < keys.len() ==> small(allowed[#[trigger] keys[i]]),
    ensures
        allowed_in_order(keys, allowed).len() <= MAX_BLOCKLIST_DENYALLOW_DOMAINS * keys.len(),
    decreases keys.len(),
{
    if keys.len() > 0 {
        let front = keys.drop_last();
        assert forall|i: int| 0 <= i < front.len() implies small(allowed[#[trigger] front[i]]) by {
            assert(front[i] == keys[i]);
        }
        allowed_in_order_is_bounded(front, allowed);
        assert(small(allowed[keys[keys.len() - 1]]));
        finite_sets_are_sorted(allowed[keys.last()]);
    }
}

/// The rules of accepted sources have distinct numbers: there are never so many that the numbers,
/// which count down, run out.
pub proof fn list_numbers_are_distinct(sources: Seq<SourceView>)
    requires
        collected(sources) is Ok,
    ensures
        ({
            let rules = list_rules(remaining(collected(sources)->Ok_0));
            &&& rules.len() <= 2 * (1 + MAX_BLOCKLIST_DENYALLOW_DOMAINS) * MAX_LISTED_DOMAINS
            &&& forall|i: int| 0 <= i < rules.len() ==> (#[trigger] rules[i]).id == u32::MAX - i
            &&& forall|i: int, k: int|
                0 <= i < k < rules.len() ==> (#[trigger] rules[i]).id != (#[trigger] rules[k]).id
        }),
{
    sources_stay_bounded(sources);
    let all = collected(sources)->Ok_0;
    let lists = remaining(all);
    let domains = sorted(lists.domains);
    let keys = sorted(lists.allowed.dom());
    let rules = list_rules(lists);
    vstd::set_lib::lemma_len_subset(lists.domains, all.domains);
    finite_sets_are_sorted(lists.domains);
    assert(lists.allowed.dom().subset_of(all.domains));
    vstd::set_lib::lemma_len_subset(lists.allowed.dom(), all.domains);
    finite_sets_are_sorted(lists.allowed.dom());
    assert forall|i: int| 0 <= i < keys.len() implies small(
        lists.allowed[#[trigger] keys[i]],
    ) by {
        assert(keys.to_set().contains(keys[i]));
        assert(lists.allowed.contains_key(keys[i]));
        assert(all.allowed.contains_key(keys[i]));
    }
    allowed_in_order_is_bounded(keys, lists.allowed);
    assert(rules.len() == 2 * domains.len() + 2 * allowed_in_order(keys, lists.allowed).len());
    assert forall|i: int| 0 <= i < rules.len() implies (#[trigger] rules[i]).id == u32::MAX - i by {
        assert(rules[i].id == list_id(i));
    }
}

// ---- what lines say ------------------------------------------------------------------

/// A text without the mark of comments.
pub open spec fn uncommented(s: Seq<char>) -> bool {
    forall|i: int| 0 <= i < s.len() ==> #[trigger] s[i] != '#'
}

proof fn whole_lines_are_read(line: Seq<char>)
    requires
        uncommented(line),
    ensures
        index_of(line, '#') == line.len(),
        line.take(index_of(line, '#')) == line,
        words(trimmed(line)) == words(line),
        words(line).len() > 0 ==> trimmed(line).len() > 0 && words(line)[0].len() > 0
            && words(line)[0][0] == trimmed(line)[0],
        words(line).len() == 0 ==> trimmed(line).len() == 0,
{
    crate::text::index_of_first(line, '#', line.len() as int);
    assert(line.take(line.len() as int) =~= line);
    crate::text::trimming_leaves_the_words(line);
    let around = crate::text::trimming_takes_white_space_only(line);
    if trimmed(line).len() > 0 {
        crate::text::the_first_word_starts_the_text(trimmed(line));
    }
}

/// Of a line of a hosts file every word behind the address counts, in order; the address itself,
/// whichever it is, does not.
pub proof fn addresses_before_names_are_skipped(first: Seq<char>, gap: char, rest: Seq<char>)
    requires
        address(first) is Some,
        is_space(gap),
        uncommented(rest),
    ensures
        line_fields(first.push(gap) + rest) == words(rest),
{
    let line = first.push(gap) + rest;
    crate::net::addresses_are_digits_dots_and_colons(first);
    assert forall|i: int| 0 <= i < first.len() implies !is_space(#[trigger] first[i]) && first[i]
        != '#' && first[i] != '!' by {
        assert(crate::net::address_char(first[i]));
    }
    assert forall|i: int| 0 <= i < line.len() implies #[trigger] line[i] != '#' by {
        if i < first.len() {
            assert(line[i] == first[i]);
        } else if i > first.len() {
            assert(line[i] == rest[i - first.len() - 1]);
        }
    }
    whole_lines_are_read(line);
    crate::text::white_space_parts_words(first, gap, rest);
    assert(words(line) == seq![first] + words(rest));
    assert(words(line)[0] == first);
    assert(words(line).skip(1) =~= words(rest));
}

/// Of every other line each word counts, in order, unless the first one starts with an exclamation
/// mark: then none does. A line that is an address alone, or empty, says nothing.
pub proof fn lines_list_their_words(line: Seq<char>)
    requires
        uncommented(line),
    ensures
        words(line).len() == 0 ==> line_fields(line).len() == 0,
        words(line).len() > 0 && words(line)[0][0] == '!' ==> line_fields(line).len() == 0,
        words(line).len() > 0 && words(line)[0][0] != '!' && address(words(line)[0]) is None
            ==> line_fields(line) == words(line),
        words(line).len() == 1 && address(words(line)[0]) is Some ==> line_fields(line).len() == 0,
{
    whole_lines_are_read(line);
}

/// What follows the mark of comments does not count.
pub proof fn comments_do_not_count(line: Seq<char>, comment: Seq<char>)
    requires
        uncommented(line),
    ensures
        line_fields(line.push('#') + comment) == line_fields(line),
{
    let all = line.push('#') + comment;
    assert forall|k: int| 0 <= k < line.len() implies all[k] != '#' by {
        assert(all[k] == line[k]);
    }
    crate::text::index_of_first(all, '#', line.len() as int);
    crate::text::index_of_first(line, '#', line.len() as int);
    assert(all.take(line.len() as int) =~= line);
    assert(line.take(line.len() as int) =~= line);
}

/// A domain as it may stand alone in a list: in normal form, listed, and without the marks of
/// filters.
pub open spec fn plain_domain(domain: Seq<char>) -> bool {
    &&& normal(domain) == domain
    &&& listed_name(domain)
    &&& forall|i: int|
        0 <= i < domain.len() ==> #[trigger] domain[i] != '$' && domain[i] != '|' && domain[i] != '@'
            && domain[i] != '^'
}

/// What a filter of a domain says: that it is blocked, or that it is an exception.
pub open spec fn filter_of(domain: Seq<char>, exception: bool) -> EntryView {
    EntryView { domain, exception, important: false, cancelled: false, allowed: None }
}

proof fn normal_of(s: Seq<char>)
    requires
        forall|i: int| 0 <= i < s.len() ==> lower_char(#[trigger] s[i]) == s[i],
        s.len() > 0 ==> s.last() != '.',
    ensures
        normal_field(s) == s,
{
    assert(trim_end_of(s, '.') == s);
    assert(lower(s) =~= s);
}

proof fn plain_domains_are_lower(domain: Seq<char>)
    requires
        plain_domain(domain),
    ensures
        domain.len() > 0,
        domain.last() != '.',
        forall|i: int| 0 <= i < domain.len() ==> lower_char(#[trigger] domain[i]) == domain[i],
        trim_end_of(domain, '^') == domain,
{
    crate::names::normal_names_are_the_name(domain);
    assert forall|i: int| 0 <= i < domain.len() implies lower_char(#[trigger] domain[i])
        == domain[i] by {
        assert(normal(domain)[i] == domain[i]);
    }
    assert(domain[domain.len() - 1] != '^');
}

proof fn no_modifiers()
    ensures
        modifiers(Seq::empty()) == Ok::<ModifiersView, Seq<char>>(
            ModifiersView { important: false, cancelled: false, allowed: None },
        ),
{
}

proof fn unmodified_entry(field: Seq<char>)
    requires
        normal_field(field) == field,
        forall|i: int| 0 <= i < field.len() ==> #[trigger] field[i] != '$',
        listed_name(filter_domain(field).1),
    ensures
        entry(field) == Ok::<EntryView, Seq<char>>(
            filter_of(filter_domain(field).1, filter_domain(field).0),
        ),
{
    crate::text::index_of_first(field, '$', field.len() as int);
    assert(field.take(field.len() as int) =~= field);
    no_modifiers();
}

/// A domain blocks itself, whether it stands alone or as a filter between two bars and a caret; with
/// two at signs before the bars it is an exception. Capital letters and dots at the end do not
/// matter.
pub proof fn filters_name_their_domain(domain: Seq<char>)
    requires
        plain_domain(domain),
    ensures
        entry(domain) == Ok::<EntryView, Seq<char>>(filter_of(domain, false)),
        entry(seq!['|', '|'] + domain + seq!['^']) == Ok::<EntryView, Seq<char>>(
            filter_of(domain, false),
        ),
        entry(seq!['@', '@', '|', '|'] + domain + seq!['^']) == Ok::<EntryView, Seq<char>>(
            filter_of(domain, true),
        ),
        forall|spelt: Seq<char>| #[trigger]
            normal(spelt) == domain ==> entry(spelt) == Ok::<EntryView, Seq<char>>(
                filter_of(domain, false),
            ),
{
    reveal_strlit("||");
    reveal_strlit("@@||");
    plain_domains_are_lower(domain);
    let blocking = seq!['|', '|'] + domain + seq!['^'];
    let excepting = seq!['@', '@', '|', '|'] + domain + seq!['^'];
    assert forall|i: int| 0 <= i < blocking.len() implies lower_char(#[trigger] blocking[i])
        == blocking[i] && blocking[i] != '$' by {
        if 2 <= i < domain.len() + 2 {
            assert(blocking[i] == domain[i - 2]);
        }
    }
    assert forall|i: int| 0 <= i < excepting.len() implies lower_char(#[trigger] excepting[i])
        == excepting[i] && excepting[i] != '$' by {
        if 4 <= i < domain.len() + 4 {
            assert(excepting[i] == domain[i - 4]);
        }
    }
    normal_of(blocking);
    normal_of(excepting);
    normal_of(domain);
    let closed = domain + seq!['^'];
    assert(closed.drop_last() =~= domain);
    assert(trim_end_of(closed, '^') == domain);
    assert(domain[0] != '|' && domain[0] != '@');
    assert(!has_prefix(domain, "@@||"@)) by {
        if has_prefix(domain, "@@||"@) {
            assert(domain.take(4)[0] == '@');
        }
    }
    assert(!has_prefix(domain, "||"@)) by {
        if has_prefix(domain, "||"@) {
            assert(domain.take(2)[0] == '|');
        }
    }
    unmodified_entry(domain);
    assert(blocking.take(2) =~= "||"@);
    assert(blocking.skip(2) =~= closed);
    assert(!has_prefix(blocking, "@@||"@)) by {
        if has_prefix(blocking, "@@||"@) {
            assert(blocking.take(4)[0] == '@');
        }
    }
    unmodified_entry(blocking);
    assert(excepting.take(4) =~= "@@||"@);
    assert(excepting.skip(4) =~= closed);
    unmodified_entry(excepting);
    assert forall|spelt: Seq<char>| #[trigger] normal(spelt) == domain implies entry(spelt) == Ok::<
        EntryView,
        Seq<char>,
    >(filter_of(domain, false)) by {
        assert(normal_field(spelt) == domain);
        assert(entry(spelt) == entry(domain));
    }
}

/// A modifier is what stands behind the dollar sign: `important` raises the filter above the others,
/// `badfilter` cancels it, and `denyallow` names the domains that it does not block.
pub proof fn modifiers_change_the_filter(
    filter: Seq<char>,
    said: EntryView,
    modifier: Seq<char>,
    list: Seq<char>,
)
    requires
        entry(filter) == Ok::<EntryView, Seq<char>>(said),
        normal_field(filter) == filter,
        forall|i: int| 0 <= i < filter.len() ==> #[trigger] filter[i] != '$',
        modifier == "important"@ || modifier == "badfilter"@ || modifier == "denyallow="@ + list,
        forall|i: int| 0 <= i < list.len() ==> #[trigger] list[i] != ',',
        normal_field(list) == list,
        list.len() > 0,
    ensures
        ({
            let told = entry(filter.push('$') + modifier);
            &&& modifier == "important"@ ==> told == Ok::<EntryView, Seq<char>>(
                EntryView { important: true, ..said },
            )
            &&& modifier == "badfilter"@ ==> told == Ok::<EntryView, Seq<char>>(
                EntryView { cancelled: true, ..said },
            )
            &&& modifier == "denyallow="@ + list ==> told == Ok::<EntryView, Seq<char>>(
                EntryView { allowed: Some(list), ..said },
            )
        }),
{
    reveal_strlit("important");
    reveal_strlit("badfilter");
    reveal_strlit("denyallow=");
    let field = filter.push('$') + modifier;
    crate::names::normal_names_are_the_name(filter);
    crate::names::normal_names_are_the_name(list);
    assert forall|i: int| 0 <= i < modifier.len() implies lower_char(#[trigger] modifier[i])
        == modifier[i] && modifier[i] != ',' by {
        if modifier == "denyallow="@ + list && i >= 10 {
            assert(modifier[i] == list[i - 10]);
            assert(normal_field(list)[i - 10] == lower_char(list[i - 10]));
        }
    }
    assert(modifier.last() != '.') by {
        if modifier == "denyallow="@ + list {
            assert(modifier.last() == list.last());
            assert(normal(list) == list);
        }
    }
    assert forall|i: int| 0 <= i < field.len() implies lower_char(#[trigger] field[i])
        == field[i] by {
        if i < filter.len() {
            assert(normal_field(filter)[i] == lower_char(filter[i]));
        } else if i > filter.len() {
            assert(field[i] == modifier[i - filter.len() - 1]);
        }
    }
    normal_of(field);
    assert forall|k: int| 0 <= k < filter.len() implies field[k] != '$' by {
        assert(field[k] == filter[k]);
    }
    crate::text::index_of_first(field, '$', filter.len() as int);
    crate::text::index_of_first(filter, '$', filter.len() as int);
    assert(filter.take(filter.len() as int) =~= filter);
    assert(field.take(filter.len() as int) =~= filter);
    assert(field.skip(filter.len() as int + 1) =~= modifier);
    crate::text::the_first_piece_ends_at_the_separator(modifier, ',', Seq::empty());
    let one = seq![modifier];
    assert(split(modifier, ',') == one);
    assert(one.drop_last() =~= Seq::empty());
    no_modifiers();
    assert(modifiers(one) == with_modifier(
        ModifiersView { important: false, cancelled: false, allowed: None },
        modifier,
    ));
    if modifier == "denyallow="@ + list {
        assert(modifier.take(10) =~= "denyallow="@);
        assert(modifier.skip(10) =~= list);
        assert(modifier[0] == 'd');
    }
}

/// A filter that is held by accepted sources.
pub open spec fn filter_is_held(sources: Seq<SourceView>, filter: EntryView) -> bool {
    exists|line: Seq<char>, i: int|
        #[trigger] lines_held(sources).contains(line) && 0 <= i < line_fields(line).len() && entry(
            #[trigger] line_fields(line)[i],
        ) == Ok::<EntryView, Seq<char>>(filter)
}

proof fn held_filters_are_said(sources: Seq<SourceView>, filter: EntryView)
    requires
        filter_is_held(sources, filter),
    ensures
        line_filters(lines_held(sources)).contains(filter),
{
    let (line, i) = choose|line: Seq<char>, i: int|
        #[trigger] lines_held(sources).contains(line) && 0 <= i < line_fields(line).len() && entry(
            #[trigger] line_fields(line)[i],
        ) == Ok::<EntryView, Seq<char>>(filter);
    assert(field_filters(line_fields(line)).contains(filter));
}

proof fn said_filters_are_held(sources: Seq<SourceView>, filter: EntryView)
    requires
        line_filters(lines_held(sources)).contains(filter),
    ensures
        filter_is_held(sources, filter),
{
    let line = choose|l: Seq<char>|
        #[trigger] lines_held(sources).contains(l) && field_filters(line_fields(l)).contains(filter);
    let i = choose|i: int|
        0 <= i < line_fields(line).len() && entry(#[trigger] line_fields(line)[i]) == Ok::<
            EntryView,
            Seq<char>,
        >(filter);
    assert(lines_held(sources).contains(line) && entry(line_fields(line)[i]) == Ok::<
        EntryView,
        Seq<char>,
    >(filter));
}

/// A rule that holds for every client and every question.
pub open spec fn for_everyone(rule: RuleView) -> bool {
    &&& rule.enabled
    &&& rule.qtype is None && rule.qtypes.len() == 0
    &&& rule.qclass is None && rule.qclasses.len() == 0
    &&& rule.client is None && rule.client_cidr is None && rule.client_cidrs.len() == 0
    &&& rule.client_identity is None
}

/// There are rules for a domain and for everything below it with an action and a priority.
pub open spec fn ruled(rules: Seq<RuleView>, domain: Seq<char>, action: Action, priority: int) -> bool {
    exists|i: int|
        0 <= i && i + 1 < rules.len() && for_everyone(#[trigger] rules[i]) && for_everyone(
            rules[i + 1],
        ) && rules[i].domain == domain && rules[i + 1].domain == seq!['*', '.'] + domain
            && rules[i].action == action && rules[i + 1].action == action && rules[i].priority
            == priority && rules[i + 1].priority == priority
}

proof fn listed_domain_has_rules(lists: ListsView, domain: Seq<char>)
    requires
        lists.domains.finite(),
        lists.domains.contains(domain),
    ensures
        ruled(
            list_rules(lists),
            domain,
            list_action(lists, domain),
            list_priority(lists, domain) as int,
        ),
{
    finite_sets_are_sorted(lists.domains);
    let domains = sorted(lists.domains);
    assert(domains.to_set().contains(domain));
    let k = choose|k: int| 0 <= k < domains.len() && domains[k] == domain;
    let rules = list_rules(lists);
    let i = 2 * k;
    assert(rules[i] == plain_rule(
        list_id(i),
        domain,
        list_action(lists, domain),
        list_priority(lists, domain),
    ));
    assert(crate::policy::wildcard_prefix() =~= seq!['*', '.']);
    assert(rules[i + 1].domain == seq!['*', '.'] + domain);
    assert(for_everyone(rules[i]) && for_everyone(rules[i + 1]));
}

/// A domain that an accepted source lists is blocked, for every client and every question, with all
/// that lies below it, unless some filter excepts or cancels it: its rules answer that the name does
/// not exist.
pub proof fn listed_domains_are_blocked(sources: Seq<SourceView>, filter: EntryView)
    requires
        collected(sources) is Ok,
        filter_is_held(sources, filter),
        forall|other: EntryView| #[trigger]
            filter_is_held(sources, other) && other.domain == filter.domain ==> !other.exception
                && !other.cancelled,
    ensures
        exists|priority: int| #[trigger]
            ruled(
                list_rules(remaining(collected(sources)->Ok_0)),
                filter.domain,
                Action::Nxdomain,
                priority,
            ) && priority < i32::MAX,
{
    sources_say_what_their_lines_say(sources);
    sources_stay_bounded(sources);
    held_filters_are_said(sources, filter);
    let held = line_filters(lines_held(sources));
    let all = collected(sources)->Ok_0;
    let lists = remaining(all);
    assert(all == said(held));
    let domain = filter.domain;
    assert(shows(filter, Aspect::Listed));
    assert(all.domains.contains(domain));
    assert(!all.cancelled.contains(domain) && !all.exceptions.contains(domain)) by {
        if all.cancelled.contains(domain) {
            let e = choose|e: EntryView|
                #[trigger] held.contains(e) && e.domain == domain && shows(e, Aspect::Cancelled);
            said_filters_are_held(sources, e);
        }
        if all.exceptions.contains(domain) {
            let e = choose|e: EntryView|
                #[trigger] held.contains(e) && e.domain == domain && shows(e, Aspect::Excepted);
            said_filters_are_held(sources, e);
        }
    }
    vstd::set_lib::lemma_len_subset(lists.domains, all.domains);
    listed_domain_has_rules(lists, domain);
    assert(ruled(
        list_rules(lists),
        domain,
        Action::Nxdomain,
        list_priority(lists, domain) as int,
    ));
}

/// A domain that some filter of an accepted source excepts passes, with all that lies below it,
/// whatever other filters say of it, unless one cancels it: its rules have the highest priority.
pub proof fn excepted_domains_pass(sources: Seq<SourceView>, filter: EntryView)
    requires
        collected(sources) is Ok,
        filter_is_held(sources, filter),
        filter.exception,
        forall|other: EntryView| #[trigger]
            filter_is_held(sources, other) && other.domain == filter.domain ==> !other.cancelled,
    ensures
        ruled(
            list_rules(remaining(collected(sources)->Ok_0)),
            filter.domain,
            Action::Pass,
            i32::MAX as int,
        ),
{
    sources_say_what_their_lines_say(sources);
    sources_stay_bounded(sources);
    held_filters_are_said(sources, filter);
    let held = line_filters(lines_held(sources));
    let all = collected(sources)->Ok_0;
    let lists = remaining(all);
    let domain = filter.domain;
    assert(shows(filter, Aspect::Listed) && shows(filter, Aspect::Excepted));
    assert(all.domains.contains(domain) && all.exceptions.contains(domain));
    assert(!all.cancelled.contains(domain)) by {
        if all.cancelled.contains(domain) {
            let e = choose|e: EntryView|
                #[trigger] held.contains(e) && e.domain == domain && shows(e, Aspect::Cancelled);
            said_filters_are_held(sources, e);
        }
    }
    vstd::set_lib::lemma_len_subset(lists.domains, all.domains);
    listed_domain_has_rules(lists, domain);
}

/// Rules of important filters outrank those of the others, and exceptions outrank both.
pub proof fn important_filters_outrank_others(
    lists: ListsView,
    exception: Seq<char>,
    important: Seq<char>,
    other: Seq<char>,
)
    requires
        lists.exceptions.contains(exception),
        !lists.exceptions.contains(important) && lists.important.contains(important),
        !lists.exceptions.contains(other) && !lists.important.contains(other),
    ensures
        list_priority(lists, exception) > list_priority(lists, important),
        list_priority(lists, important) > list_priority(lists, other),
{
}

/// Every rule of accepted sources comes from one of their filters: it blocks or excepts a domain
/// that a filter names, or passes a domain that a filter allows below its own. None comes from a
/// cancelled filter.
pub proof fn rules_come_from_filters(sources: Seq<SourceView>, i: int)
    requires
        collected(sources) is Ok,
        0 <= i < list_rules(remaining(collected(sources)->Ok_0)).len(),
    ensures
        ({
            let rule = list_rules(remaining(collected(sources)->Ok_0))[i];
            let domain = if i % 2 == 0 {
                rule.domain
            } else {
                rule.domain.skip(2)
            };
            &&& for_everyone(rule)
            &&& i % 2 == 1 ==> rule.domain == seq!['*', '.'] + domain
            &&& rule.action == Action::Nxdomain || rule.action == Action::Pass
            &&& rule.action == Action::Nxdomain ==> exists|filter: EntryView| #[trigger]
                filter_is_held(sources, filter) && filter.domain == domain && !filter.exception
        }),
{
    sources_say_what_their_lines_say(sources);
    sources_stay_bounded(sources);
    let held = line_filters(lines_held(sources));
    let all = collected(sources)->Ok_0;
    let lists = remaining(all);
    let rules = list_rules(lists);
    let rule = rules[i];
    vstd::set_lib::lemma_len_subset(lists.domains, all.domains);
    finite_sets_are_sorted(lists.domains);
    let domains = sorted(lists.domains);
    assert(crate::policy::wildcard_prefix() =~= seq!['*', '.']);
    if i < 2 * domains.len() {
        let domain = domains[i / 2];
        assert(rule.domain == covering(domain, i % 2 == 1));
        if i % 2 == 1 {
            assert(rule.domain.skip(2) =~= domain);
        }
        assert(domains.to_set().contains(domain));
        assert(all.domains.contains(domain));
        let e = choose|e: EntryView|
            #[trigger] held.contains(e) && e.domain == domain && shows(e, Aspect::Listed);
        if rule.action == Action::Nxdomain {
            assert(!lists.exceptions.contains(domain));
            assert(!all.exceptions.contains(domain)) by {
                assert(!all.cancelled.contains(domain));
            }
            assert(!e.exception) by {
                if e.exception {
                    assert(shows(e, Aspect::Excepted));
                }
            }
            said_filters_are_held(sources, e);
        }
    } else {
        let allowed = allowed_in_order(sorted(lists.allowed.dom()), lists.allowed);
        let domain = allowed[(i - 2 * domains.len()) / 2];
        assert(rule.domain == covering(domain, i % 2 == 1));
        if i % 2 == 1 {
            assert(rule.domain.skip(2) =~= domain);
        }
    }
}

/// A source whose line is an address and a name says what the source with the name alone says.
pub proof fn hosts_lines_say_what_their_names_say(
    hosts: SourceView,
    names: SourceView,
    first: Seq<char>,
    gap: char,
    domain: Seq<char>,
)
    requires
        address(first) is Some,
        is_space(gap),
        plain_domain(domain),
        uncommented(domain),
        domain[0] != '!',
        address(domain) is None,
        forall|i: int| 0 <= i < domain.len() ==> !is_space(#[trigger] domain[i]),
        hosts.contents is Ok && names.contents is Ok,
        lines(decode_utf8(hosts.contents->Ok_0)) == seq![first.push(gap) + domain],
        lines(decode_utf8(names.contents->Ok_0)) == seq![domain],
        collected(seq![hosts]) is Ok,
        collected(seq![names]) is Ok,
    ensures
        collected(seq![hosts]) == collected(seq![names]),
        exists|priority: int| #[trigger]
            ruled(
                list_rules(remaining(collected(seq![hosts])->Ok_0)),
                domain,
                Action::Nxdomain,
                priority,
            ),
{
    let line = first.push(gap) + domain;
    addresses_before_names_are_skipped(first, gap, domain);
    crate::text::white_space_parts_words(domain, gap, Seq::empty());
    lines_list_their_words(domain);
    filters_name_their_domain(domain);
    let filter = filter_of(domain, false);
    one_line_says_its_filter(hosts, line, domain, filter);
    one_line_says_its_filter(names, domain, domain, filter);
    listed_domains_are_blocked(seq![hosts], filter);
}

proof fn one_source_holds_its_line(source: SourceView, line: Seq<char>)
    requires
        source.contents is Ok,
        lines(decode_utf8(source.contents->Ok_0)) == seq![line],
    ensures
        lines_held(seq![source]) == set![line],
{
    let one = seq![source];
    let none = Seq::<SourceView>::empty();
    assert(one.drop_last() =~= none);
    assert(one.last() == source);
    assert(lines_held(none) == Set::<Seq<char>>::empty());
    assert(lines_held(one) == Set::<Seq<char>>::empty().union(seq![line].to_set()));
    assert(seq![line].to_set() =~= set![line]) by {
        assert(seq![line][0] == line);
    }
    assert(Set::<Seq<char>>::empty().union(set![line]) =~= set![line]);
}

proof fn one_line_says_its_filter(
    source: SourceView,
    line: Seq<char>,
    field: Seq<char>,
    filter: EntryView,
)
    requires
        source.contents is Ok,
        lines(decode_utf8(source.contents->Ok_0)) == seq![line],
        line_fields(line) == seq![field],
        entry(field) == Ok::<EntryView, Seq<char>>(filter),
        collected(seq![source]) is Ok,
    ensures
        collected(seq![source])->Ok_0 == said(set![filter]),
        filter_is_held(seq![source], filter),
        forall|other: EntryView| #[trigger] filter_is_held(seq![source], other) ==> other == filter,
{
    let one = seq![source];
    sources_say_what_their_lines_say(one);
    let held = lines_held(one);
    one_source_holds_its_line(source, line);
    assert(line_fields(line)[0] == field);
    assert(held.contains(line));
    assert(filter_is_held(one, filter));
    assert forall|other: EntryView| #[trigger] filter_is_held(one, other) implies other == filter by {
        let (l, i) = choose|l: Seq<char>, i: int|
            #[trigger] held.contains(l) && 0 <= i < line_fields(l).len() && entry(
                #[trigger] line_fields(l)[i],
            ) == Ok::<EntryView, Seq<char>>(other);
        assert(l == line && i == 0);
    }
    assert(line_filters(held) =~= set![filter]) by {
        assert forall|e: EntryView| line_filters(held).contains(e) == set![filter].contains(e) by {
            if line_filters(held).contains(e) {
                said_filters_are_held(one, e);
            }
            held_filters_are_said(one, filter);
        }
    }
}

/// Sources are accepted only within their bounds: at most 4096 of them, with paths of at most 4096
/// bytes and at most 64 mebibytes together, all of them read, in UTF-8, and with lines of at most
/// 4096 bytes.
pub proof fn accepted_sources_are_bounded(sources: Seq<SourceView>, i: int)
    requires
        collected(sources) is Ok,
        0 <= i < sources.len(),
    ensures
        sources.len() <= 4096,
        byte_len(sources[i].path) <= 4096,
        sources[i].contents is Ok,
        sources[i].contents->Ok_0.len() <= 67_108_864,
        valid_utf8(sources[i].contents->Ok_0),
        forall|k: int|
            0 <= k < lines(decode_utf8(sources[i].contents->Ok_0)).len() ==> byte_len(
                #[trigger] lines(decode_utf8(sources[i].contents->Ok_0))[k],
            ) <= 4096,
        with_sources(sources)->Ok_0.1 <= 67_108_864,
    decreases sources.len(),
{
    let front = sources.drop_last();
    if i < front.len() {
        assert(front[i] == sources[i]);
        accepted_sources_are_bounded(front, i);
    } else {
        let all = lines(decode_utf8(sources[i].contents->Ok_0));
        accepted_lines_are_bounded(with_sources(front)->Ok_0.0, all);
    }
}

proof fn accepted_lines_are_bounded(lists: ListsView, all: Seq<Seq<char>>)
    requires
        with_lines(lists, all) is Ok,
    ensures
        forall|k: int| 0 <= k < all.len() ==> byte_len(#[trigger] all[k]) <= 4096,
    decreases all.len(),
{
    if all.len() > 0 {
        let front = all.drop_last();
        accepted_lines_are_bounded(lists, front);
        assert forall|k: int| 0 <= k < all.len() implies byte_len(#[trigger] all[k]) <= 4096 by {
            if k < front.len() {
                assert(front[k] == all[k]);
            }
        }
    }
}

/// The sources in use are those that are not disabled, in their order; a disabled source must be one
/// of those configured, and is disabled once.
pub proof fn disabled_sources_are_left_out(paths: Seq<Seq<char>>, disabled: Seq<Seq<char>>)
    ensures
        active_paths(paths, disabled) is Ok <==> (forall|i: int, k: int|
            0 <= i < k < disabled.len() ==> #[trigger] disabled[i] != #[trigger] disabled[k]) && (
        forall|i: int| 0 <= i < disabled.len() ==> paths.contains(#[trigger] disabled[i])),
        active_paths(paths, disabled) is Ok ==> forall|path: Seq<char>| #[trigger]
            active_paths(paths, disabled)->Ok_0.contains(path) <==> paths.contains(path)
                && !disabled.contains(path),
        disabled.len() == 0 ==> active_paths(paths, disabled) == Ok::<Seq<Seq<char>>, ErrorView>(paths),
{
    let strange = strangers(disabled, paths);
    crate::text_set::finite_lists_are_finite_sets(disabled);
    assert(strange.finite());
    if forall|i: int| 0 <= i < disabled.len() ==> paths.contains(#[trigger] disabled[i]) {
        assert(strange =~= Set::empty()) by {
            assert forall|t: Seq<char>| !strange.contains(t) by {
                if strange.contains(t) {
                    let i = choose|i: int| 0 <= i < disabled.len() && disabled[i] == t;
                    assert(paths.contains(disabled[i]));
                }
            }
        }
    } else {
        let i = choose|i: int| 0 <= i < disabled.len() && !paths.contains(#[trigger] disabled[i]);
        assert(disabled.to_set().contains(disabled[i]));
        assert(strange.contains(disabled[i]));
        if strange.len() == 0 {
            assert(strange =~= Set::empty());
        }
    }
    assert forall|path: Seq<char>| #[trigger] without(paths, disabled).contains(path)
        <==> paths.contains(path) && !disabled.contains(path) by {
        without_leaves_the_others(paths, disabled, path);
    }
    if disabled.len() == 0 {
        without_nothing(paths, disabled);
    }
}

proof fn without_leaves_the_others(list: Seq<Seq<char>>, others: Seq<Seq<char>>, text: Seq<char>)
    ensures
        without(list, others).contains(text) <==> list.contains(text) && !others.contains(text),
    decreases list.len(),
{
    if list.len() > 0 {
        let front = list.drop_last();
        let rest = without(front, others);
        let all = without(list, others);
        without_leaves_the_others(front, others, text);
        if all.contains(text) {
            let k = choose|k: int| 0 <= k < all.len() && all[k] == text;
            if k < rest.len() {
                assert(rest[k] == text);
                let m = choose|m: int| 0 <= m < front.len() && front[m] == text;
                assert(list[m] == text);
            } else {
                assert(list[list.len() - 1] == text);
            }
        }
        if list.contains(text) && !others.contains(text) {
            let m = choose|m: int| 0 <= m < list.len() && list[m] == text;
            if m < front.len() {
                assert(front[m] == text);
                let k = choose|k: int| 0 <= k < rest.len() && rest[k] == text;
                assert(all[k] == text);
            } else {
                assert(all[all.len() - 1] == text);
            }
        }
    }
}

proof fn without_nothing(list: Seq<Seq<char>>, others: Seq<Seq<char>>)
    requires
        others.len() == 0,
    ensures
        without(list, others) == list,
    decreases list.len(),
{
    if list.len() > 0 {
        without_nothing(list.drop_last(), others);
        assert(without(list, others) =~= list);
    }
}

/// A source over HTTP is asked for at its host with the path behind it, or with a slash where there
/// is none; a source of another scheme, without a host, or with a fragment is none.
pub proof fn remote_sources_have_a_host_and_a_path(host: Seq<char>, path: Seq<char>, secure: bool)
    requires
        host.len() > 0,
        forall|i: int| 0 <= i < host.len() ==> #[trigger] host[i] != '/' && host[i] != '#',
        uncommented(path),
    ensures
        ({
            let scheme = if secure {
                "https://"@
            } else {
                "http://"@
            };
            &&& http_parts(scheme + host) == Some((scheme + host, "/"@))
            &&& http_parts(scheme + host + (seq!['/'] + path)) == Some(
                (scheme + host, seq!['/'] + path),
            )
            &&& http_parts(scheme) is None
        }),
{
    reveal_strlit("https://");
    reveal_strlit("http://");
    reveal_strlit("/");
    let scheme = if secure {
        "https://"@
    } else {
        "http://"@
    };
    let n = scheme.len() as int;
    let bare = scheme + host;
    let full = scheme + host + (seq!['/'] + path);
    assert(bare.take(n) =~= scheme && full.take(n) =~= scheme && scheme.take(n) =~= scheme);
    assert(secure ==> bare[4] == 's' && full[4] == 's' && scheme[4] == 's');
    assert(secure ==> !has_prefix(bare, "http://"@)) by {
        if has_prefix(bare, "http://"@) {
            assert(bare.take(7)[4] == ':');
        }
    }
    assert(secure ==> !has_prefix(full, "http://"@)) by {
        if has_prefix(full, "http://"@) {
            assert(full.take(7)[4] == ':');
        }
    }
    assert(secure ==> !has_prefix(scheme, "http://"@)) by {
        if has_prefix(scheme, "http://"@) {
            assert(scheme.take(7)[4] == ':');
        }
    }
    assert(bare.skip(n) =~= host);
    assert(full.skip(n) =~= host + (seq!['/'] + path));
    assert(scheme.skip(n) =~= Seq::empty());
    crate::text::index_of_first(host, '/', host.len() as int);
    crate::text::index_of_first(full.skip(n), '/', host.len() as int);
    assert(bare.take(n + host.len()) =~= bare);
    assert(full.take(n + host.len()) =~= bare);
    assert(full.skip(n + host.len()) =~= seq!['/'] + path);
    assert(!bare.contains('#')) by {
        if bare.contains('#') {
            let i = choose|i: int| 0 <= i < bare.len() && bare[i] == '#';
            if i >= n {
                assert(host[i - n] == '#');
            } else {
                assert(scheme[i] == '#');
            }
        }
    }
    assert(!(seq!['/'] + path).contains('#')) by {
        if (seq!['/'] + path).contains('#') {
            let i = choose|i: int|
                0 <= i < (seq!['/'] + path).len() && (seq!['/'] + path)[i] == '#';
            if i > 0 {
                assert(path[i - 1] == '#');
            }
        }
    }
    assert(!"/"@.contains('#')) by {
        if "/"@.contains('#') {
            let i = choose|i: int| 0 <= i < "/"@.len() && "/"@[i] == '#';
        }
    }
}

/// A source within the limits is read for its lines: nothing else refuses it, and its bytes count.
pub proof fn sources_within_the_limits_are_read(lists: ListsView, total: nat, source: SourceView)
    requires
        byte_len(source.path) <= 4_096,
        source.contents matches Ok(bytes) && total + bytes.len() <= 67_108_864 && valid_utf8(bytes),
    ensures
        match with_lines(lists, lines(decode_utf8(source.contents->Ok_0))) {
            Ok(next) => with_source(lists, total, source) == Ok::<(ListsView, nat), ErrorView>(
                (next, total + source.contents->Ok_0.len()),
            ),
            Err(_) => with_source(lists, total, source) is Err,
        },
{
}

/// Each path is looked up among the files by itself, in its place; one that was not read counts as
/// unreadable.
pub proof fn sources_are_looked_up_by_path(
    files: Seq<SourceView>,
    paths: Seq<Seq<char>>,
    i: int,
    k: int,
)
    requires
        0 <= i < paths.len(),
    ensures
        gathered(files, paths).len() == paths.len(),
        gathered(files, paths)[i].path == paths[i],
        0 <= k < files.len() && files[k].path == paths[i] && (forall|j: int|
            0 <= j < k ==> (#[trigger] files[j]).path != paths[i]) ==> gathered(files, paths)[i]
            == files[k],
        (forall|j: int| 0 <= j < files.len() ==> (#[trigger] files[j]).path != paths[i]) ==> gathered(
            files,
            paths,
        )[i].contents is Err,
{
    found_sources_are_first(files, paths[i]);
    if 0 <= k < files.len() && files[k].path == paths[i] && (forall|j: int|
        0 <= j < k ==> (#[trigger] files[j]).path != paths[i]) {
        let found = find_source(files, paths[i]);
        if found is Some && found->0 > k {
            assert(files[k].path != paths[i]);
        }
        if found is Some && found->0 < k {
            assert(files[found->0].path != paths[i]);
        }
    }
}

proof fn found_sources_are_first(files: Seq<SourceView>, path: Seq<char>)
    ensures
        match find_source(files, path) {
            Some(i) => 0 <= i < files.len() && files[i].path == path && forall|j: int|
                0 <= j < i ==> (#[trigger] files[j]).path != path,
            None => forall|j: int| 0 <= j < files.len() ==> (#[trigger] files[j]).path != path,
        },
    decreases files.len(),
{
    if files.len() > 0 {
        let front = files.drop_last();
        found_sources_are_first(front, path);
        assert forall|j: int| 0 <= j < front.len() implies front[j] == #[trigger] files[j] by {}
    }
}

} // verus!
