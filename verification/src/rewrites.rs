//! Local answers: names that are answered from the configuration.
use vstd::prelude::*;

use crate::config::{rewrite_views, RewriteConfig, RewriteView};
use crate::dns::{address_record, encode_name, ipv4_bytes, ipv4_rdata, ipv6_bytes, ipv6_rdata,
    ok_answer, record_views, wire_name, AnswerView, DnsAnswer, DnsAnswerRecord, DnsQuery, RecordView};
use crate::names::{dns_name, normal, normalize_chars, valid_dns_name};
use crate::policy::{wildcard_prefix, ErrorView, PolicyError};
use crate::text::{copy_chars, decimal, ending_in_number, find_char, has_prefix, index_of, push_all, same, strip_prefix,
    to_chars, to_text};
use vstd::slice::slice_subrange;

verus! {

/// The most rewrites that one configuration may hold.
pub const MAX_REWRITES: usize = 10_000;

/// One local answer: the name in normal form, with its `*.` where it is a wildcard.
pub struct RewriteEntry {
    pub name: Vec<char>,
    pub qtype: u16,
    pub answer: DnsAnswer,
}

/// The local answers, at most one for each name and type.
pub struct RewriteTable {
    pub entries: Vec<RewriteEntry>,
}

/// The answers by name and type.
pub type Answers = Map<(Seq<char>, u16), AnswerView>;

pub open spec fn answers(entries: Seq<RewriteEntry>) -> Answers
    decreases entries.len(),
{
    if entries.len() == 0 {
        Map::empty()
    } else {
        answers(entries.drop_last()).insert(
            (entries.last().name@, entries.last().qtype),
            entries.last().answer@,
        )
    }
}

pub open spec fn distinct(entries: Seq<RewriteEntry>) -> bool {
    forall|i: int, j: int|
        0 <= i < j < entries.len() ==> (entries[i].name@, entries[i].qtype) != (
            entries[j].name@,
            entries[j].qtype,
        )
}

impl View for RewriteTable {
    type V = Answers;

    open spec fn view(&self) -> Answers {
        answers(self.entries@)
    }
}

proof fn answers_has(entries: Seq<RewriteEntry>, name: Seq<char>, qtype: u16)
    ensures
        answers(entries).contains_key((name, qtype)) <==> exists|i: int|
            0 <= i < entries.len() && (#[trigger] entries[i]).name@ == name && entries[i].qtype
                == qtype,
    decreases entries.len(),
{
    if entries.len() > 0 {
        let front = entries.drop_last();
        answers_has(front, name, qtype);
        if answers(front).contains_key((name, qtype)) {
            let i = choose|i: int|
                0 <= i < front.len() && (#[trigger] front[i]).name@ == name && front[i].qtype
                    == qtype;
            assert(entries[i] == front[i]);
        }
        if exists|i: int|
            0 <= i < entries.len() && (#[trigger] entries[i]).name@ == name && entries[i].qtype
                == qtype {
            let i = choose|i: int|
                0 <= i < entries.len() && (#[trigger] entries[i]).name@ == name
                    && entries[i].qtype == qtype;
            if i < front.len() {
                assert(front[i] == entries[i]);
            }
        }
        assert(entries[entries.len() - 1] == entries.last());
    }
}

proof fn distinct_front(entries: Seq<RewriteEntry>)
    requires
        distinct(entries),
        entries.len() > 0,
    ensures
        distinct(entries.drop_last()),
{
    let front = entries.drop_last();
    assert forall|i: int, j: int| 0 <= i < j < front.len() implies (front[i].name@, front[i].qtype)
        != (front[j].name@, front[j].qtype) by {
        assert(front[i] == entries[i] && front[j] == entries[j]);
    }
}

proof fn answers_at(entries: Seq<RewriteEntry>, i: int)
    requires
        distinct(entries),
        0 <= i < entries.len(),
    ensures
        answers(entries).contains_key((entries[i].name@, entries[i].qtype)),
        answers(entries)[(entries[i].name@, entries[i].qtype)] == entries[i].answer@,
    decreases entries.len(),
{
    if i < entries.len() - 1 {
        let front = entries.drop_last();
        distinct_front(entries);
        assert(front[i] == entries[i]);
        answers_at(front, i);
        let last = entries.len() - 1;
        assert((entries[i].name@, entries[i].qtype) != (entries[last].name@, entries[last].qtype));
    }
}

proof fn answers_without(entries: Seq<RewriteEntry>, i: int, entry: RewriteEntry)
    requires
        distinct(entries),
        0 <= i < entries.len(),
        entry.name@ == entries[i].name@,
        entry.qtype == entries[i].qtype,
    ensures
        answers(entries.remove(i).push(entry)) == answers(entries).insert(
            (entry.name@, entry.qtype),
            entry.answer@,
        ),
        distinct(entries.remove(i).push(entry)),
    decreases entries.len(),
{
    let rest = entries.remove(i);
    let next = rest.push(entry);
    assert(next.drop_last() =~= rest);
    answers_removed(entries, i);
    assert(answers(next) =~= answers(entries).insert((entry.name@, entry.qtype), entry.answer@));
    assert forall|a: int, b: int| 0 <= a < b < next.len() implies (next[a].name@, next[a].qtype)
        != (next[b].name@, next[b].qtype) by {
        let pa = if a < i { a } else { a + 1 };
        assert(next[a] == entries[pa]);
        if b < rest.len() {
            let pb = if b < i { b } else { b + 1 };
            assert(next[b] == entries[pb]);
        } else if pa < i {
            assert((entries[pa].name@, entries[pa].qtype) != (entries[i].name@, entries[i].qtype));
        } else {
            assert((entries[i].name@, entries[i].qtype) != (entries[pa].name@, entries[pa].qtype));
        }
    }
}

proof fn answers_removed(entries: Seq<RewriteEntry>, i: int)
    requires
        distinct(entries),
        0 <= i < entries.len(),
    ensures
        answers(entries.remove(i)) == answers(entries).remove((entries[i].name@, entries[i].qtype)),
    decreases entries.len(),
{
    let key = (entries[i].name@, entries[i].qtype);
    let front = entries.drop_last();
    distinct_front(entries);
    if i == entries.len() - 1 {
        assert(entries.remove(i) =~= front);
        answers_has(front, key.0, key.1);
        assert(!answers(front).contains_key(key)) by {
            if answers(front).contains_key(key) {
                let k = choose|k: int|
                    0 <= k < front.len() && (#[trigger] front[k]).name@ == key.0 && front[k].qtype
                        == key.1;
                assert(front[k] == entries[k]);
                assert((entries[k].name@, entries[k].qtype) != (entries[i].name@, entries[i].qtype));
            }
        }
        assert(answers(front) =~= answers(entries).remove(key));
    } else {
        assert(front[i] == entries[i]);
        answers_removed(front, i);
        let next = entries.remove(i);
        assert(next.drop_last() =~= front.remove(i));
        assert(next.last() == entries.last());
        let last = entries.len() - 1;
        assert((entries[i].name@, entries[i].qtype) != (entries[last].name@, entries[last].qtype));
        assert(answers(next) =~= answers(entries).remove(key));
    }
}

/// The number of answers that are not wildcards.
pub open spec fn exact_count(entries: Seq<RewriteEntry>) -> nat
    decreases entries.len(),
{
    if entries.len() == 0 {
        0
    } else {
        exact_count(entries.drop_last()) + (if has_prefix(entries.last().name@, wildcard_prefix()) {
            0nat
        } else {
            1nat
        })
    }
}

impl RewriteTable {
    /// The number of answers that are not wildcards.
    pub fn len(&self) -> (r: usize)
        ensures
            r == exact_count(self.entries@),
    {
        let mut count: usize = 0;
        let mut i: usize = 0;
        assert(self.entries@.take(0).len() == 0);
        while i < self.entries.len()
            invariant
                i <= self.entries.len(),
                count <= i,
                count == exact_count(self.entries@.take(i as int)),
            decreases self.entries.len() - i,
        {
            let ghost next = self.entries@.take(i as int + 1);
            assert(next.drop_last() =~= self.entries@.take(i as int));
            assert(next.last() == self.entries@[i as int]);
            proof {
                reveal_strlit("*.");
                assert("*."@ =~= wildcard_prefix());
            }
            if strip_prefix(&self.entries[i].name, "*.").is_none() {
                count = count + 1;
            }
            i = i + 1;
        }
        assert(self.entries@.take(i as int) =~= self.entries@);
        count
    }
}

/// The answer of a table to a query: the exact name first, then the wildcard that covers
/// names with one more label. A wildcard's records are given the queried name.
pub open spec fn local_answer(table: Answers, name: Seq<char>, qtype: u16) -> Option<AnswerView> {
    let n = normal(name);
    let at = index_of(n, '.');
    let above = wildcard_prefix() + n.skip(at + 1);
    if !has_prefix(n, wildcard_prefix()) && table.contains_key((n, qtype)) {
        Some(table[(n, qtype)])
    } else if at < n.len() && table.contains_key((above, qtype)) {
        Some(renamed(table[(above, qtype)], name))
    } else {
        None
    }
}

/// The answer with every record given the name.
pub open spec fn renamed(answer: AnswerView, name: Seq<char>) -> AnswerView {
    AnswerView {
        records: Seq::new(
            answer.records.len(),
            |i: int| RecordView { name, ..answer.records[i] },
        ),
        ..answer
    }
}

impl RewriteTable {
    pub open spec fn wf(&self) -> bool {
        distinct(self.entries@)
    }

    pub fn new() -> (r: RewriteTable)
        ensures
            r.wf(),
            r@ == Answers::empty(),
    {
        RewriteTable { entries: Vec::new() }
    }

    fn position(&self, name: &[char], qtype: u16) -> (r: Option<usize>)
        requires
            self.wf(),
        ensures
            match r {
                Some(i) => {
                    &&& i < self.entries.len()
                    &&& self.entries@[i as int].name@ == name@
                    &&& self.entries@[i as int].qtype == qtype
                    &&& self@.contains_key((name@, qtype))
                    &&& self@[(name@, qtype)] == self.entries@[i as int].answer@
                },
                None => !self@.contains_key((name@, qtype)),
            },
    {
        let mut i: usize = 0;
        while i < self.entries.len()
            invariant
                self.wf(),
                i <= self.entries.len(),
                forall|k: int|
                    0 <= k < i ==> !((#[trigger] self.entries@[k]).name@ == name@
                        && self.entries@[k].qtype == qtype),
            decreases self.entries.len() - i,
        {
            if self.entries[i].qtype == qtype && same(&self.entries[i].name, name) {
                proof {
                    answers_at(self.entries@, i as int);
                }
                return Some(i);
            }
            i = i + 1;
        }
        proof {
            answers_has(self.entries@, name@, qtype);
        }
        None
    }

    fn insert(&mut self, name: &[char], qtype: u16, answer: DnsAnswer)
        requires
            old(self).wf(),
        ensures
            final(self).wf(),
            final(self)@ == old(self)@.insert((name@, qtype), answer@),
    {
        let ghost before = self.entries@;
        let entry = RewriteEntry { name: copy_chars(name), qtype, answer };
        match self.position(name, qtype) {
            Some(i) => {
                let _old = self.entries.remove(i);
                self.entries.push(entry);
                proof {
                    answers_without(before, i as int, entry);
                    assert(self.entries@ =~= before.remove(i as int).push(entry));
                }
            },
            None => {
                self.entries.push(entry);
                proof {
                    assert(self.entries@.drop_last() =~= before);
                    answers_has(before, name@, qtype);
                    assert forall|a: int, b: int| 0 <= a < b < self.entries@.len() implies (
                    self.entries@[a].name@, self.entries@[a].qtype) != (
                        self.entries@[b].name@,
                        self.entries@[b].qtype,
                    ) by {
                        assert(self.entries@[a] == before[a]);
                        if b < before.len() {
                            assert(self.entries@[b] == before[b]);
                        }
                    }
                }
            },
        }
    }

    /// The local answer to a query.
    pub fn answer(&self, query: &DnsQuery) -> (r: Option<DnsAnswer>)
        requires
            self.wf(),
        ensures
            r is Some <==> local_answer(self@, query.name@, query.qtype) is Some,
            r is Some ==> r->0@ == local_answer(self@, query.name@, query.qtype)->0,
    {
        let chars = to_chars(query.name.as_str());
        let name = normalize_chars(&chars);
        proof {
            reveal_strlit("*.");
            assert("*."@ =~= wildcard_prefix());
        }
        let wildcard = strip_prefix(&name, "*.").is_some();
        if !wildcard {
            match self.position(&name, query.qtype) {
                Some(i) => {
                    return Some(self.entries[i].answer.copied());
                },
                None => {},
            }
        }
        let at: usize = find_char(&name, '.');
        if at >= name.len() {
            return None;
        }
        let mut above = to_chars("*.");
        assert(name@.subrange(at as int + 1, name@.len() as int) == name@.skip(at as int + 1));
        push_all(&mut above, slice_subrange(name.as_slice(), at + 1, name.len()));
        match self.position(&above, query.qtype) {
            None => None,
            Some(i) => {
                let found = self.entries[i].answer.copied();
                let ghost wanted = renamed(found@, query.name@);
                let mut records: Vec<DnsAnswerRecord> = Vec::new();
                let mut k: usize = 0;
                assert(record_views(records@) =~= wanted.records.take(0));
                while k < found.records.len()
                    invariant
                        k <= found.records.len(),
                        wanted == renamed(found@, query.name@),
                        record_views(records@) == wanted.records.take(k as int),
                    decreases found.records.len() - k,
                {
                    let old = found.records[k].copied();
                    let record = DnsAnswerRecord {
                        name: query.name.clone(),
                        rtype: old.rtype,
                        rclass: old.rclass,
                        ttl: old.ttl,
                        rdata: old.rdata,
                    };
                    assert(found@.records[k as int] == found.records[k as int]@);
                    assert(record@ == wanted.records[k as int]);
                    let ghost before = record_views(records@);
                    records.push(record);
                    assert(record_views(records@) =~= before.push(record@));
                    k = k + 1;
                    assert(wanted.records.take(k as int) =~= wanted.records.take(
                        k as int - 1,
                    ).push(wanted.records[k as int - 1]));
                }
                assert(wanted.records.take(k as int) =~= wanted.records);
                Some(
                    DnsAnswer {
                        rcode: found.rcode,
                        authoritative: found.authoritative,
                        recursion_available: found.recursion_available,
                        records,
                    },
                )
            },
        }
    }
}

// ---- compiling -----------------------------------------------------------------------

pub open spec fn rewrite_error(name: Seq<char>, reason: Seq<char>) -> ErrorView {
    ErrorView::InvalidRewrite { name, reason }
}

/// Whether the name of a rewrite is a valid name or a wildcard over one.
pub open spec fn rewrite_name(name: Seq<char>) -> bool {
    let n = normal(name);
    &&& n.len() > 0
    &&& if has_prefix(n, wildcard_prefix()) {
        n.len() > 2 && dns_name(n.skip(2))
    } else {
        dns_name(n)
    }
}

/// The one record of a rewrite, under its own name.
pub open spec fn rewrite_answer(name: Seq<char>, rtype: u16, ttl: u32, rdata: Seq<u8>) -> AnswerView {
    ok_answer(seq![address_record(normal(name).push('.'), rtype, ttl, rdata)])
}

/// What one rewrite adds to the answers, or why it is refused.
pub open spec fn with_rewrite(table: Answers, config: RewriteView) -> Result<Answers, ErrorView> {
    let n = normal(config.name);
    if !rewrite_name(config.name) {
        Err(rewrite_error(config.name, "name must be a non-empty ASCII DNS name"@))
    } else if config.ipv4 is None && config.ipv6 is None && config.cname is None {
        Err(rewrite_error(config.name, "at least one of ipv4, ipv6, or cname is required"@))
    } else if config.cname is Some && (config.ipv4 is Some || config.ipv6 is Some) {
        Err(rewrite_error(config.name, "cname cannot be combined with ipv4 or ipv6"@))
    } else if config.ipv4 is Some && table.contains_key((n, 1u16)) {
        Err(rewrite_error(config.name, "duplicate A rewrite"@))
    } else {
        let first = match config.ipv4 {
            Some(address) => table.insert(
                (n, 1u16),
                rewrite_answer(config.name, 1, config.ttl, ipv4_rdata(address)),
            ),
            None => table,
        };
        if config.ipv6 is Some && first.contains_key((n, 28u16)) {
            Err(rewrite_error(config.name, "duplicate AAAA rewrite"@))
        } else {
            let second = match config.ipv6 {
                Some(address) => first.insert(
                    (n, 28u16),
                    rewrite_answer(config.name, 28, config.ttl, ipv6_rdata(address)),
                ),
                None => first,
            };
            match config.cname {
                None => Ok(second),
                Some(target) => if normal(target).len() == 0 || !dns_name(normal(target)) {
                    Err(rewrite_error(config.name, "cname must be a non-empty ASCII DNS name"@))
                } else {
                    match wire_name(normal(target)) {
                        Err(_) => Err(rewrite_error(config.name, "cname exceeds DNS wire limits"@)),
                        Ok(rdata) => Ok(
                            second.insert(
                                (n, 5u16),
                                rewrite_answer(config.name, 5, config.ttl, rdata),
                            ),
                        ),
                    }
                },
            }
        }
    }
}

/// The answers of a list of rewrites; the first one that is refused refuses the list.
pub open spec fn rewritten(configs: Seq<RewriteView>) -> Result<Answers, ErrorView>
    decreases configs.len(),
{
    if configs.len() == 0 {
        Ok(Answers::empty())
    } else {
        match rewritten(configs.drop_last()) {
            Err(error) => Err(error),
            Ok(table) => with_rewrite(table, configs.last()),
        }
    }
}

pub open spec fn compiled_rewrites(configs: Seq<RewriteView>) -> Result<Answers, ErrorView> {
    if configs.len() > MAX_REWRITES {
        Err(rewrite_error("<table>"@, "entry count exceeds "@ + decimal(MAX_REWRITES as nat)))
    } else {
        rewritten(configs)
    }
}

proof fn rewritten_error_stays(configs: Seq<RewriteView>, n: int)
    requires
        0 <= n <= configs.len(),
        rewritten(configs.take(n)) is Err,
    ensures
        rewritten(configs) == rewritten(configs.take(n)),
    decreases configs.len(),
{
    if n == configs.len() {
        assert(configs.take(n) =~= configs);
    } else {
        assert(configs.drop_last().take(n) =~= configs.take(n));
        rewritten_error_stays(configs.drop_last(), n);
    }
}

fn refuse(name: &str, reason: &str) -> (r: PolicyError)
    ensures
        r@ == rewrite_error(name@, reason@),
{
    PolicyError::InvalidRewrite { name: name.to_owned(), reason: reason.to_owned() }
}

/// One answer with one record.
fn single_answer(name: &[char], rtype: u16, ttl: u32, rdata: Vec<u8>) -> (r: DnsAnswer)
    ensures
        r@ == ok_answer(seq![address_record(name@.push('.'), rtype, ttl, rdata@)]),
{
    let mut full = copy_chars(name);
    full.push('.');
    let mut records: Vec<DnsAnswerRecord> = Vec::new();
    records.push(DnsAnswerRecord { name: to_text(&full), rtype, rclass: 1, ttl, rdata });
    let r = DnsAnswer::ok(records);
    assert(r@.records =~= seq![address_record(name@.push('.'), rtype, ttl, rdata@)]);
    r
}

fn has_rewrite_name(name: &[char]) -> (r: bool)
    ensures
        r == {
            &&& name@.len() > 0
            &&& if has_prefix(name@, wildcard_prefix()) {
                name@.len() > 2 && dns_name(name@.skip(2))
            } else {
                dns_name(name@)
            }
        },
{
    proof {
        reveal_strlit("*.");
        assert("*."@ =~= wildcard_prefix());
    }
    if name.len() == 0 {
        return false;
    }
    match strip_prefix(name, "*.") {
        Some(rest) => rest.len() > 0 && valid_dns_name(&rest),
        None => valid_dns_name(name),
    }
}

impl RewriteTable {
    /// Adds one rewrite. A refused one may leave some of its answers behind.
    fn add(&mut self, config: &RewriteConfig) -> (r: Result<(), PolicyError>)
        requires
            old(self).wf(),
        ensures
            final(self).wf(),
            match with_rewrite(old(self)@, config@) {
                Ok(table) => r is Ok && final(self)@ == table,
                Err(error) => r is Err && r->Err_0@ == error,
            },
    {
        let chars = to_chars(config.name.as_str());
        let name = normalize_chars(&chars);
        if !has_rewrite_name(&name) {
            return Err(
                refuse(config.name.as_str(), "name must be a non-empty ASCII DNS name"),
            );
        }
        if config.ipv4.is_none() && config.ipv6.is_none() && config.cname.is_none() {
            return Err(
                refuse(
                    config.name.as_str(),
                    "at least one of ipv4, ipv6, or cname is required",
                ),
            );
        }
        if config.cname.is_some() && (config.ipv4.is_some() || config.ipv6.is_some()) {
            return Err(
                refuse(config.name.as_str(), "cname cannot be combined with ipv4 or ipv6"),
            );
        }
        match config.ipv4 {
            Some(address) => {
                if self.position(&name, 1).is_some() {
                    return Err(refuse(config.name.as_str(), "duplicate A rewrite"));
                }
                let answer = single_answer(&name, 1, config.ttl, ipv4_bytes(address));
                self.insert(&name, 1, answer);
            },
            None => {},
        }
        match config.ipv6 {
            Some(address) => {
                if self.position(&name, 28).is_some() {
                    return Err(refuse(config.name.as_str(), "duplicate AAAA rewrite"));
                }
                let answer = single_answer(&name, 28, config.ttl, ipv6_bytes(address));
                self.insert(&name, 28, answer);
            },
            None => {},
        }
        match &config.cname {
            Some(raw) => {
                let given = to_chars(raw.as_str());
                let target = normalize_chars(&given);
                if target.len() == 0 || !valid_dns_name(&target) {
                    return Err(
                        refuse(
                            config.name.as_str(),
                            "cname must be a non-empty ASCII DNS name",
                        ),
                    );
                }
                let text = to_text(&target);
                match encode_name(text.as_str()) {
                    Ok(rdata) => {
                        let answer = single_answer(&name, 5, config.ttl, rdata);
                        self.insert(&name, 5, answer);
                    },
                    Err(_) => {
                        return Err(refuse(config.name.as_str(), "cname exceeds DNS wire limits"));
                    },
                }
            },
            None => {},
        }
        Ok(())
    }
}

/// Makes a table of the rewrites.
pub fn compile_rewrites(configs: &[RewriteConfig]) -> (r: Result<RewriteTable, PolicyError>)
    ensures
        match compiled_rewrites(rewrite_views(configs@)) {
            Ok(table) => r is Ok && r->Ok_0.wf() && r->Ok_0@ == table,
            Err(error) => r is Err && r->Err_0@ == error,
        },
{
    let ghost all = rewrite_views(configs@);
    if configs.len() > MAX_REWRITES {
        return Err(
            PolicyError::InvalidRewrite {
                name: "<table>".to_owned(),
                reason: ending_in_number("entry count exceeds ", MAX_REWRITES as u64),
            },
        );
    }
    let mut table = RewriteTable::new();
    let mut i: usize = 0;
    while i < configs.len()
        invariant
            i <= configs.len() <= MAX_REWRITES,
            all == rewrite_views(configs@),
            table.wf(),
            rewritten(all.take(i as int)) == Ok::<Answers, ErrorView>(table@),
        decreases configs.len() - i,
    {
        let ghost next = all.take(i as int + 1);
        assert(next.drop_last() =~= all.take(i as int));
        assert(next.last() == configs[i as int]@);
        match table.add(&configs[i]) {
            Ok(()) => {},
            Err(error) => {
                proof {
                    rewritten_error_stays(all, i as int + 1);
                }
                return Err(error);
            },
        }
        i = i + 1;
    }
    assert(all.take(i as int) =~= all);
    Ok(table)
}

/// An alias of a valid name is never too long for the wire.
pub proof fn aliases_fit_the_wire(target: Seq<char>)
    requires
        dns_name(normal(target)),
    ensures
        wire_name(normal(target)) is Ok,
{
    crate::dns::valid_names_have_a_wire_form(normal(target));
}

/// The exact name wins over the wildcard above it.
pub proof fn exact_rewrites_win(table: Answers, name: Seq<char>, qtype: u16)
    requires
        !has_prefix(normal(name), wildcard_prefix()),
        table.contains_key((normal(name), qtype)),
    ensures
        local_answer(table, name, qtype) == Some(table[(normal(name), qtype)]),
{
}

/// A wildcard covers exactly one more label: a name is answered by the wildcard over what
/// follows its first dot, and by no other wildcard.
pub proof fn wildcards_cover_one_label(table: Answers, name: Seq<char>, qtype: u16)
    requires
        !table.contains_key((normal(name), qtype)),
    ensures
        local_answer(table, name, qtype) is Some <==> {
            let n = normal(name);
            let at = index_of(n, '.');
            at < n.len() && table.contains_key((wildcard_prefix() + n.skip(at + 1), qtype))
        },
{
}

// ---- what is answered locally --------------------------------------------------------

proof fn later_rewrites_stay_apart(configs: Seq<RewriteView>, i: int)
    requires
        rewritten(configs) is Ok,
        0 <= i < configs.len(),
    ensures
        ({
            let table = rewritten(configs)->Ok_0;
            let n = normal(configs[i].name);
            &&& configs[i].ipv4 is Some ==> table.contains_key((n, 1u16)) && table[(n, 1u16)]
                == rewrite_answer(configs[i].name, 1, configs[i].ttl, ipv4_rdata(configs[i].ipv4->0))
            &&& configs[i].ipv6 is Some ==> table.contains_key((n, 28u16)) && table[(n, 28u16)]
                == rewrite_answer(
                configs[i].name,
                28,
                configs[i].ttl,
                ipv6_rdata(configs[i].ipv6->0),
            )
            &&& configs[i].cname is Some ==> table.contains_key((n, 5u16))
            &&& configs[i].cname is Some && (forall|k: int|
                i < k < configs.len() && (#[trigger] configs[k]).cname is Some ==> normal(
                    configs[k].name,
                ) != n) ==> table[(n, 5u16)] == rewrite_answer(
                configs[i].name,
                5,
                configs[i].ttl,
                wire_name(normal(configs[i].cname->0))->Ok_0,
            )
            &&& rewrite_name(configs[i].name)
        }),
    decreases configs.len(),
{
    let front = configs.drop_last();
    if i < front.len() {
        later_rewrites_stay_apart(front, i);
        assert(front[i] == configs[i]);
        let n = normal(configs[i].name);
        if forall|k: int|
            i < k < configs.len() && (#[trigger] configs[k]).cname is Some ==> normal(
                configs[k].name,
            ) != n {
            assert forall|k: int| i < k < front.len() && (#[trigger] front[k]).cname is Some implies normal(
            front[k].name) != n by {
                assert(front[k] == configs[k]);
            }
            assert(configs[configs.len() - 1] == configs.last());
        }
    }
}

/// A local name is answered with what is configured for it: a query for an IPv4 address, an IPv6
/// address or an alias gets one record of that type and of the class of the internet, with the
/// configured time to live and, for an address, the bytes of the address. A name with a star and a
/// dot before it answers for every name with one more label, under that name.
pub proof fn local_names_are_answered(configs: Seq<RewriteView>, i: int, name: Seq<char>)
    requires
        compiled_rewrites(configs) is Ok,
        0 <= i < configs.len(),
    ensures
        ({
            let table = compiled_rewrites(configs)->Ok_0;
            let plain = normal(configs[i].name);
            let own = normal(name) == plain && !(plain.len() >= 2 && plain[0] == '*' && plain[1]
                == '.');
            &&& configs.len() <= 10_000
            &&& own && configs[i].ipv4 is Some ==> tells_record(
                local_answer(table, name, 1),
                plain.push('.'),
                1,
                configs[i].ttl,
                ipv4_rdata(configs[i].ipv4->0),
            )
            &&& own && configs[i].ipv6 is Some ==> tells_record(
                local_answer(table, name, 28),
                plain.push('.'),
                28,
                configs[i].ttl,
                ipv6_rdata(configs[i].ipv6->0),
            )
            &&& own && configs[i].cname is Some && (forall|k: int|
                i < k < configs.len() && (#[trigger] configs[k]).cname is Some ==> normal(
                    configs[k].name,
                ) != plain) ==> tells_record(
                local_answer(table, name, 5),
                plain.push('.'),
                5,
                configs[i].ttl,
                wire_name(normal(configs[i].cname->0))->Ok_0,
            )
        }),
{
    later_rewrites_stay_apart(configs, i);
    let plain = normal(configs[i].name);
    if has_prefix(plain, wildcard_prefix()) {
        assert(plain.take(2)[0] == '*' && plain.take(2)[1] == '.');
    }
}

/// An answer without an error that holds one record.
pub open spec fn tells_record(
    answer: Option<AnswerView>,
    name: Seq<char>,
    rtype: u16,
    ttl: u32,
    rdata: Seq<u8>,
) -> bool {
    &&& answer is Some
    &&& answer->0.rcode == 0
    &&& answer->0.records.len() == 1
    &&& answer->0.records[0].name == name
    &&& answer->0.records[0].rtype == rtype
    &&& answer->0.records[0].rclass == 1
    &&& answer->0.records[0].ttl == ttl
    &&& answer->0.records[0].rdata == rdata
}

/// A wildcard answers for a name with one more label, under that name, where the name has no answer
/// of its own.
pub proof fn wildcards_answer_under_the_queried_name(
    configs: Seq<RewriteView>,
    i: int,
    domain: Seq<char>,
    label: Seq<char>,
    name: Seq<char>,
)
    requires
        compiled_rewrites(configs) is Ok,
        0 <= i < configs.len(),
        normal(configs[i].name) == seq!['*', '.'] + domain,
        forall|k: int| 0 <= k < label.len() ==> #[trigger] label[k] != '.',
        label != seq!['*'],
        normal(name) == label.push('.') + domain,
    ensures
        ({
            let table = compiled_rewrites(configs)->Ok_0;
            &&& configs[i].ipv4 is Some && !table.contains_key((normal(name), 1u16)) ==> tells_record(
                local_answer(table, name, 1),
                name,
                1,
                configs[i].ttl,
                ipv4_rdata(configs[i].ipv4->0),
            )
            &&& configs[i].ipv6 is Some && !table.contains_key((normal(name), 28u16))
                ==> tells_record(
                local_answer(table, name, 28),
                name,
                28,
                configs[i].ttl,
                ipv6_rdata(configs[i].ipv6->0),
            )
        }),
{
    later_rewrites_stay_apart(configs, i);
    let n = normal(name);
    assert forall|k: int| 0 <= k < label.len() implies n[k] != '.' by {
        assert(n[k] == label[k]);
    }
    crate::text::index_of_first(n, '.', label.len() as int);
    assert(n.skip(label.len() as int + 1) =~= domain);
    assert(wildcard_prefix() + domain =~= seq!['*', '.'] + domain);
}

/// What is answered locally comes from a rewrite: of the name itself, or of a wildcard above it. A
/// name that none of them covers has no local answer.
pub proof fn only_configured_names_are_answered(
    configs: Seq<RewriteView>,
    name: Seq<char>,
    qtype: u16,
)
    requires
        compiled_rewrites(configs) is Ok,
        local_answer(compiled_rewrites(configs)->Ok_0, name, qtype) is Some,
    ensures
        exists|i: int|
            0 <= i < configs.len() && {
                let plain = normal((#[trigger] configs[i]).name);
                let at = index_of(normal(name), '.');
                &&& plain == normal(name) || plain == seq!['*', '.'] + normal(name).skip(at + 1)
                &&& qtype == 1 && configs[i].ipv4 is Some || qtype == 28 && configs[i].ipv6 is Some
                    || qtype == 5 && configs[i].cname is Some
            },
{
    let table = compiled_rewrites(configs)->Ok_0;
    let n = normal(name);
    let above = wildcard_prefix() + n.skip(index_of(n, '.') + 1);
    if !has_prefix(n, wildcard_prefix()) && table.contains_key((n, qtype)) {
        answers_come_from_rewrites(configs, n, qtype);
    } else {
        answers_come_from_rewrites(configs, above, qtype);
    }
}

proof fn answers_come_from_rewrites(configs: Seq<RewriteView>, n: Seq<char>, qtype: u16)
    requires
        rewritten(configs) is Ok,
        rewritten(configs)->Ok_0.contains_key((n, qtype)),
    ensures
        exists|i: int|
            0 <= i < configs.len() && normal((#[trigger] configs[i]).name) == n && (qtype == 1
                && configs[i].ipv4 is Some || qtype == 28 && configs[i].ipv6 is Some || qtype == 5
                && configs[i].cname is Some),
    decreases configs.len(),
{
    if configs.len() > 0 {
        let front = configs.drop_last();
        let last = configs.last();
        if rewritten(front)->Ok_0.contains_key((n, qtype)) {
            answers_come_from_rewrites(front, n, qtype);
            let i = choose|i: int|
                0 <= i < front.len() && normal((#[trigger] front[i]).name) == n && (qtype == 1
                    && front[i].ipv4 is Some || qtype == 28 && front[i].ipv6 is Some || qtype == 5
                    && front[i].cname is Some);
            assert(configs[i] == front[i]);
        } else {
            assert(configs[configs.len() - 1] == last);
            assert(normal(last.name) == n);
        }
    }
}

/// A local answer can be given to a name that DNS can carry, and to all names below one, written with
/// a star in front; to no other.
pub proof fn answers_are_for_names(name: Seq<char>, domain: Seq<char>)
    ensures
        normal(name) == seq!['*', '.'] + domain ==> (rewrite_name(name) <==> domain.len() > 0
            && dns_name(domain)),
        !(normal(name).len() >= 2 && normal(name)[0] == '*' && normal(name)[1] == '.') ==> (
        rewrite_name(name) <==> normal(name).len() > 0 && dns_name(normal(name))),
{
    let n = normal(name);
    if n == seq!['*', '.'] + domain {
        assert(n.take(2) =~= seq!['*', '.']);
        assert(n.skip(2) =~= domain);
        assert(n[0] == '*' && n[1] == '.');
    } else if has_prefix(n, wildcard_prefix()) {
        assert(n.take(2)[0] == n[0] && n.take(2)[1] == n[1]);
    }
}

/// The entries for single names are counted one by one, those with a star not at all.
pub proof fn entries_for_single_names_are_counted(entries: Seq<RewriteEntry>, entry: RewriteEntry)
    ensures
        exact_count(Seq::empty()) == 0,
        entry.name@.len() >= 2 && entry.name@[0] == '*' && entry.name@[1] == '.' ==> exact_count(
            entries.push(entry),
        ) == exact_count(entries),
        !(entry.name@.len() >= 2 && entry.name@[0] == '*' && entry.name@[1] == '.') ==> exact_count(
            entries.push(entry),
        ) == exact_count(entries) + 1,
{
    assert(entries.push(entry).drop_last() =~= entries);
    let n = entry.name@;
    if n.len() >= 2 && n[0] == '*' && n[1] == '.' {
        assert(n.take(2) =~= seq!['*', '.']);
    } else if has_prefix(n, wildcard_prefix()) {
        assert(n.take(2)[0] == n[0] && n.take(2)[1] == n[1]);
    }
}

} // verus!
