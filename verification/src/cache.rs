//! The cache of answers that upstream gave. Time is counted in milliseconds.
use vstd::prelude::*;
use vstd::string::*;

use crate::config::CacheConfig;
use crate::dns::{record_views, AnswerView, DnsAnswer, DnsAnswerRecord, DnsQuery, RecordView};
use crate::names::{normal, normalize};
use crate::text::same_str;

verus! {

/// What an answer is kept under.
#[derive(Clone, Debug, PartialEq, Eq)]
pub struct CacheKey {
    pub name: String,
    pub qtype: u16,
    pub qclass: u16,
}

pub struct KeyView {
    pub name: Seq<char>,
    pub qtype: u16,
    pub qclass: u16,
}

impl View for CacheKey {
    type V = KeyView;

    open spec fn view(&self) -> KeyView {
        KeyView { name: self.name@, qtype: self.qtype, qclass: self.qclass }
    }
}

/// The key of a query: the name in normal form, with the type and the class.
pub open spec fn key_of_query(name: Seq<char>, qtype: u16, qclass: u16) -> KeyView {
    KeyView { name: normal(name), qtype, qclass }
}

impl CacheKey {
    pub fn from_query(query: &DnsQuery) -> (r: CacheKey)
        ensures
            r@ == key_of_query(query.name@, query.qtype, query.qclass),
    {
        CacheKey {
            name: normalize(query.name.as_str()),
            qtype: query.qtype,
            qclass: query.qclass,
        }
    }

    fn same_as(&self, other: &CacheKey) -> (r: bool)
        ensures
            r == (self@ == other@),
    {
        self.qtype == other.qtype && self.qclass == other.qclass && same_str(
            self.name.as_str(),
            other.name.as_str(),
        )
    }
}

/// An answer with the times until which it is fresh and until which it may still be served.
#[derive(Clone, Debug)]
pub struct CacheEntry {
    pub key: CacheKey,
    pub answer: DnsAnswer,
    pub expires_at: u128,
    pub stale_until: u128,
}

pub struct EntryView {
    pub key: KeyView,
    pub answer: AnswerView,
    pub expires_at: int,
    pub stale_until: int,
}

impl View for CacheEntry {
    type V = EntryView;

    open spec fn view(&self) -> EntryView {
        EntryView {
            key: self.key@,
            answer: self.answer@,
            expires_at: self.expires_at as int,
            stale_until: self.stale_until as int,
        }
    }
}

pub open spec fn entry_views(list: Seq<CacheEntry>) -> Seq<EntryView> {
    Seq::new(list.len(), |i: int| list[i]@)
}

/// The position of the entry under the key.
pub open spec fn find_entry(entries: Seq<EntryView>, key: KeyView) -> Option<int>
    decreases entries.len(),
{
    if entries.len() == 0 {
        None
    } else {
        match find_entry(entries.drop_last(), key) {
            Some(i) => Some(i),
            None => if entries.last().key == key {
                Some(entries.len() - 1)
            } else {
                None
            },
        }
    }
}

/// The position of the first entry that expires before all others.
pub open spec fn oldest(entries: Seq<EntryView>) -> int
    decreases entries.len(),
{
    if entries.len() <= 1 {
        0
    } else {
        let before = oldest(entries.drop_last());
        if entries.last().expires_at < entries[before].expires_at {
            entries.len() - 1
        } else {
            before
        }
    }
}

/// The smallest time to live among the records, or the one for answers without records.
pub open spec fn least_ttl(records: Seq<RecordView>, negative: int) -> int
    decreases records.len(),
{
    if records.len() == 0 {
        negative
    } else if records.len() == 1 {
        records[0].ttl as int
    } else {
        let before = least_ttl(records.drop_last(), negative);
        if (records.last().ttl as int) < before {
            records.last().ttl as int
        } else {
            before
        }
    }
}

/// For how many seconds an answer is fresh.
pub open spec fn fresh_seconds(answer: AnswerView, config: CacheConfig) -> int {
    let ttl = least_ttl(answer.records, config.negative_ttl_secs as int);
    if ttl < config.max_ttl_secs {
        ttl
    } else {
        config.max_ttl_secs as int
    }
}

/// The entry that an answer is kept in.
pub open spec fn entry_for(key: KeyView, answer: AnswerView, config: CacheConfig, now: int) -> EntryView {
    let expires_at = now + 1000 * fresh_seconds(answer, config);
    EntryView { key, answer, expires_at, stale_until: expires_at + 1000 * config.stale_ttl_secs }
}

/// Whether room must be made before an answer can be kept under the key.
pub open spec fn must_evict(entries: Seq<EntryView>, key: KeyView, config: CacheConfig) -> bool {
    config.max_entries > 0 && entries.len() >= config.max_entries && find_entry(entries, key) is None
        && entries.len() > 0
}

/// The entries after an answer was kept: in place of an earlier one, or behind the others, where
/// a full cache first loses the entry that expires first.
pub open spec fn with_answer(
    entries: Seq<EntryView>,
    key: KeyView,
    answer: AnswerView,
    config: CacheConfig,
    now: int,
) -> Seq<EntryView> {
    let entry = entry_for(key, answer, config, now);
    if config.max_entries == 0 {
        entries
    } else {
        match find_entry(entries, key) {
            Some(i) => entries.update(i, entry),
            None => if must_evict(entries, key, config) {
                entries.remove(oldest(entries)).push(entry)
            } else {
                entries.push(entry)
            },
        }
    }
}

/// The fresh answer under a key.
pub open spec fn fresh_answer(entries: Seq<EntryView>, key: KeyView, now: int) -> Option<AnswerView> {
    match find_entry(entries, key) {
        Some(i) => if now < entries[i].expires_at {
            Some(entries[i].answer)
        } else {
            None
        },
        None => None,
    }
}

/// The answer under a key that may still be served when upstream fails.
pub open spec fn servable_answer(entries: Seq<EntryView>, key: KeyView, now: int) -> Option<AnswerView> {
    match find_entry(entries, key) {
        Some(i) => if now < entries[i].stale_until {
            Some(entries[i].answer)
        } else {
            None
        },
        None => None,
    }
}

/// At most one entry has each key.
pub open spec fn keys_are_distinct(entries: Seq<EntryView>) -> bool {
    forall|i: int, k: int|
        0 <= i < k < entries.len() ==> (#[trigger] entries[i]).key != (#[trigger] entries[k]).key
}

pub struct DnsCache {
    pub entries: Vec<CacheEntry>,
    pub config: CacheConfig,
}

impl View for DnsCache {
    type V = Seq<EntryView>;

    open spec fn view(&self) -> Seq<EntryView> {
        entry_views(self.entries@)
    }
}

proof fn find_entry_stays(entries: Seq<EntryView>, key: KeyView, i: int)
    requires
        0 <= i < entries.len(),
        find_entry(entries.take(i + 1), key) == Some(i),
    ensures
        find_entry(entries, key) == Some(i),
    decreases entries.len(),
{
    if entries.len() == i + 1 {
        assert(entries.take(i + 1) =~= entries);
    } else {
        assert(entries.drop_last().take(i + 1) =~= entries.take(i + 1));
        find_entry_stays(entries.drop_last(), key, i);
    }
}

/// What is found is there, and what is not found is absent.
pub proof fn find_entry_is_exact(entries: Seq<EntryView>, key: KeyView)
    ensures
        match find_entry(entries, key) {
            Some(i) => 0 <= i < entries.len() && entries[i].key == key,
            None => forall|i: int| 0 <= i < entries.len() ==> (#[trigger] entries[i]).key != key,
        },
    decreases entries.len(),
{
    if entries.len() > 0 {
        let front = entries.drop_last();
        find_entry_is_exact(front, key);
        if find_entry(entries, key) is None {
            assert forall|i: int| 0 <= i < entries.len() implies (#[trigger] entries[i]).key
                != key by {
                if i < front.len() {
                    assert(front[i] == entries[i]);
                }
            }
        }
    }
}

/// No entry expires before the oldest one.
pub proof fn oldest_expires_first(entries: Seq<EntryView>)
    requires
        entries.len() > 0,
    ensures
        0 <= oldest(entries) < entries.len(),
        forall|i: int|
            0 <= i < entries.len() ==> entries[oldest(entries)].expires_at <= (
            #[trigger] entries[i]).expires_at,
    decreases entries.len(),
{
    if entries.len() > 1 {
        let front = entries.drop_last();
        oldest_expires_first(front);
        assert forall|i: int| 0 <= i < entries.len() implies entries[oldest(entries)].expires_at
            <= (#[trigger] entries[i]).expires_at by {
            if i < front.len() {
                assert(front[i] == entries[i]);
                assert(front[oldest(front)].expires_at <= front[i].expires_at);
            }
        }
    }
}

fn smallest_ttl(records: &[DnsAnswerRecord], negative: u64) -> (r: u64)
    ensures
        r == least_ttl(record_views(records@), negative as int),
{
    let ghost all = record_views(records@);
    if records.len() == 0 {
        return negative;
    }
    let mut best: u64 = records[0].ttl as u64;
    let mut i: usize = 1;
    assert(all.take(1)[0] == records[0]@);
    while i < records.len()
        invariant
            1 <= i <= records.len(),
            all == record_views(records@),
            best == least_ttl(all.take(i as int), negative as int),
        decreases records.len() - i,
    {
        let ghost next = all.take(i as int + 1);
        assert(next.drop_last() =~= all.take(i as int));
        assert(next.last() == records[i as int]@);
        if (records[i].ttl as u64) < best {
            best = records[i].ttl as u64;
        }
        i = i + 1;
    }
    assert(all.take(i as int) =~= all);
    best
}

/// For how many seconds an answer is fresh.
pub fn kept_seconds(answer: &DnsAnswer, config: &CacheConfig) -> (r: u64)
    ensures
        r == fresh_seconds(answer@, *config),
{
    let ttl: u64 = smallest_ttl(&answer.records, config.negative_ttl_secs);
    if ttl < config.max_ttl_secs {
        ttl
    } else {
        config.max_ttl_secs
    }
}

impl DnsCache {
    /// No key occurs twice, and the number of entries stays within the limit.
    pub open spec fn wf(&self) -> bool {
        &&& keys_are_distinct(self@)
        &&& self@.len() <= self.config.max_entries
    }

    pub fn new(config: &CacheConfig) -> (r: DnsCache)
        ensures
            r@ == Seq::<EntryView>::empty(),
            r.config == *config,
            r.wf(),
    {
        let r = DnsCache { entries: Vec::new(), config: *config };
        assert(r@ =~= Seq::<EntryView>::empty());
        r
    }

    pub fn len(&self) -> (r: usize)
        ensures
            r == self@.len(),
    {
        self.entries.len()
    }

    fn position_of(&self, key: &CacheKey) -> (r: Option<usize>)
        ensures
            match find_entry(self@, key@) {
                Some(i) => r is Some && r->0 == i && 0 <= i < self.entries@.len(),
                None => r is None,
            },
    {
        let mut i: usize = 0;
        while i < self.entries.len()
            invariant
                i <= self.entries.len(),
                find_entry(self@.take(i as int), key@) is None,
            decreases self.entries.len() - i,
        {
            let ghost next = self@.take(i as int + 1);
            assert(next.drop_last() =~= self@.take(i as int));
            assert(next.last() == self.entries[i as int]@);
            if self.entries[i].key.same_as(key) {
                proof {
                    find_entry_stays(self@, key@, i as int);
                }
                return Some(i);
            }
            i = i + 1;
        }
        assert(self@.take(i as int) =~= self@);
        None
    }

    fn position_of_oldest(&self) -> (r: usize)
        requires
            self.entries@.len() > 0,
        ensures
            r == oldest(self@),
            r < self.entries@.len(),
    {
        let mut best: usize = 0;
        let mut i: usize = 1;
        while i < self.entries.len()
            invariant
                1 <= i <= self.entries.len(),
                best < i,
                best == oldest(self@.take(i as int)),
            decreases self.entries.len() - i,
        {
            let ghost next = self@.take(i as int + 1);
            assert(next.drop_last() =~= self@.take(i as int));
            assert(next.last() == self.entries[i as int]@);
            assert(next[best as int] == self.entries[best as int]@);
            if self.entries[i].expires_at < self.entries[best].expires_at {
                best = i;
            }
            i = i + 1;
        }
        assert(self@.take(i as int) =~= self@);
        best
    }

    /// The answer under a key, where it is fresh.
    pub fn fresh(&self, key: &CacheKey, now: u64) -> (r: Option<DnsAnswer>)
        ensures
            match fresh_answer(self@, key@, now as int) {
                Some(answer) => r is Some && r->0@ == answer,
                None => r is None,
            },
    {
        match self.position_of(key) {
            Some(i) => {
                assert(self@[i as int] == self.entries[i as int]@);
                if (now as u128) < self.entries[i].expires_at {
                    Some(self.entries[i].answer.copied())
                } else {
                    None
                }
            },
            None => None,
        }
    }

    /// The answer under a key, where it may still be served.
    pub fn stale_answer(&self, key: &CacheKey, now: u64) -> (r: Option<DnsAnswer>)
        ensures
            match servable_answer(self@, key@, now as int) {
                Some(answer) => r is Some && r->0@ == answer,
                None => r is None,
            },
    {
        match self.position_of(key) {
            Some(i) => {
                assert(self@[i as int] == self.entries[i as int]@);
                if (now as u128) < self.entries[i].stale_until {
                    Some(self.entries[i].answer.copied())
                } else {
                    None
                }
            },
            None => None,
        }
    }

    /// As `stale_answer`; an entry that may no longer be served is dropped.
    pub fn stale(&mut self, key: &CacheKey, now: u64) -> (r: Option<DnsAnswer>)
        requires
            old(self).wf(),
        ensures
            match servable_answer(old(self)@, key@, now as int) {
                Some(answer) => r is Some && r->0@ == answer && final(self)@ == old(self)@,
                None => r is None && final(self)@ == (match find_entry(old(self)@, key@) {
                    Some(i) => old(self)@.remove(i),
                    None => old(self)@,
                }),
            },
            final(self).config == old(self).config,
            final(self).wf(),
    {
        let found = self.stale_answer(key, now);
        if found.is_none() {
            match self.position_of(key) {
                Some(i) => {
                    let ghost before = self@;
                    let _ = self.entries.remove(i);
                    assert(self@ =~= before.remove(i as int));
                    proof {
                        removal_keeps_keys_distinct(before, i as int);
                    }
                },
                None => {},
            }
        }
        found
    }

    /// Forgets every answer.
    pub fn clear(&mut self)
        ensures
            final(self)@ == Seq::<EntryView>::empty(),
            final(self).config == old(self).config,
            final(self).wf(),
    {
        self.entries = Vec::new();
        assert(self@ =~= Seq::<EntryView>::empty());
    }

    /// Keeps an answer. The result says whether another entry had to go.
    pub fn insert(&mut self, key: CacheKey, answer: DnsAnswer, now: u64) -> (r: bool)
        requires
            old(self).wf(),
        ensures
            final(self)@ == with_answer(old(self)@, key@, answer@, old(self).config, now as int),
            r == must_evict(old(self)@, key@, old(self).config),
            final(self).config == old(self).config,
            final(self).wf(),
    {
        if self.config.max_entries == 0 {
            return false;
        }
        let ghost before = self@;
        let ghost view = key@;
        let ghost kept = answer@;
        let fresh: u64 = kept_seconds(&answer, &self.config);
        let expires_at: u128 = now as u128 + 1000u128 * (fresh as u128);
        let stale_until: u128 = expires_at + 1000u128 * (self.config.stale_ttl_secs as u128);
        let found = self.position_of(&key);
        let entry = CacheEntry { key, answer, expires_at, stale_until };
        assert(entry@ == entry_for(view, kept, self.config, now as int));
        proof {
            find_entry_is_exact(before, view);
        }
        match found {
            Some(i) => {
                self.entries.set(i, entry);
                assert(self@ =~= before.update(i as int, entry@));
                proof {
                    replacement_keeps_keys_distinct(before, i as int, entry@);
                }
                false
            },
            None => {
                let mut evicted = false;
                if self.entries.len() >= self.config.max_entries && self.entries.len() > 0 {
                    let at: usize = self.position_of_oldest();
                    let _ = self.entries.remove(at);
                    assert(self@ =~= before.remove(at as int));
                    proof {
                        removal_keeps_keys_distinct(before, at as int);
                    }
                    evicted = true;
                }
                let ghost middle = self@;
                assert(forall|i: int|
                    0 <= i < middle.len() ==> (#[trigger] middle[i]).key != view);
                self.entries.push(entry);
                assert(self@ =~= middle.push(entry@));
                proof {
                    addition_keeps_keys_distinct(middle, entry@);
                }
                evicted
            },
        }
    }
}

proof fn removal_keeps_keys_distinct(entries: Seq<EntryView>, at: int)
    requires
        keys_are_distinct(entries),
        0 <= at < entries.len(),
    ensures
        keys_are_distinct(entries.remove(at)),
        forall|i: int|
            0 <= i < entries.len() - 1 ==> (#[trigger] entries.remove(at)[i]) == entries[if i < at {
                i
            } else {
                i + 1
            }],
{
    let after = entries.remove(at);
    assert forall|i: int, k: int| 0 <= i < k < after.len() implies (#[trigger] after[i]).key != (
    #[trigger] after[k]).key by {
        let a = if i < at {
            i
        } else {
            i + 1
        };
        let b = if k < at {
            k
        } else {
            k + 1
        };
        assert(after[i] == entries[a] && after[k] == entries[b]);
    }
}

proof fn replacement_keeps_keys_distinct(entries: Seq<EntryView>, at: int, entry: EntryView)
    requires
        keys_are_distinct(entries),
        0 <= at < entries.len(),
        entries[at].key == entry.key,
    ensures
        keys_are_distinct(entries.update(at, entry)),
{
    let after = entries.update(at, entry);
    assert forall|i: int, k: int| 0 <= i < k < after.len() implies (#[trigger] after[i]).key != (
    #[trigger] after[k]).key by {
        assert(after[i].key == entries[i].key && after[k].key == entries[k].key);
    }
}

proof fn addition_keeps_keys_distinct(entries: Seq<EntryView>, entry: EntryView)
    requires
        keys_are_distinct(entries),
        forall|i: int| 0 <= i < entries.len() ==> (#[trigger] entries[i]).key != entry.key,
    ensures
        keys_are_distinct(entries.push(entry)),
{
    let after = entries.push(entry);
    assert forall|i: int, k: int| 0 <= i < k < after.len() implies (#[trigger] after[i]).key != (
    #[trigger] after[k]).key by {
        assert(after[i] == entries[i]);
        if k < entries.len() {
            assert(after[k] == entries[k]);
        }
    }
}

// ---- laws ----------------------------------------------------------------------------

/// With distinct keys there is one place to find a key.
proof fn found_at_its_place(entries: Seq<EntryView>, i: int)
    requires
        keys_are_distinct(entries),
        0 <= i < entries.len(),
    ensures
        find_entry(entries, entries[i].key) == Some(i),
{
    find_entry_is_exact(entries, entries[i].key);
    let at = find_entry(entries, entries[i].key);
    if at is None {
        assert(entries[i].key != entries[i].key);
    } else if at->0 != i {
        if at->0 < i {
            assert(entries[at->0].key != entries[i].key);
        } else {
            assert(entries[i].key != entries[at->0].key);
        }
    }
}

/// A cache that keeps anything gives back what was just kept: fresh until its time to live is
/// over, and servable for the stale time more.
pub proof fn kept_answers_are_found(
    entries: Seq<EntryView>,
    key: KeyView,
    answer: AnswerView,
    config: CacheConfig,
    now: int,
    later: int,
)
    requires
        keys_are_distinct(entries),
        config.max_entries > 0,
    ensures
        ({
            let after = with_answer(entries, key, answer, config, now);
            let end = now + 1000 * fresh_seconds(answer, config);
            &&& fresh_answer(after, key, later) == (if later < end {
                Some(answer)
            } else {
                None
            })
            &&& servable_answer(after, key, later) == (if later < end + 1000
                * config.stale_ttl_secs {
                Some(answer)
            } else {
                None
            })
        }),
{
    let after = with_answer(entries, key, answer, config, now);
    let entry = entry_for(key, answer, config, now);
    find_entry_is_exact(entries, key);
    match find_entry(entries, key) {
        Some(i) => {
            replacement_keeps_keys_distinct(entries, i, entry);
            found_at_its_place(after, i);
        },
        None => {
            let middle = if must_evict(entries, key, config) {
                oldest_expires_first(entries);
                removal_keeps_keys_distinct(entries, oldest(entries));
                entries.remove(oldest(entries))
            } else {
                entries
            };
            assert forall|i: int| 0 <= i < middle.len() implies (#[trigger] middle[i]).key
                != key by {
                if must_evict(entries, key, config) {
                    let at = oldest(entries);
                    assert(middle[i] == entries[if i < at {
                        i
                    } else {
                        i + 1
                    }]);
                }
            }
            addition_keeps_keys_distinct(middle, entry);
            assert(after == middle.push(entry));
            assert(after[after.len() - 1] == entry);
            found_at_its_place(after, after.len() - 1);
        },
    }
}

/// A cache stays within its limit whatever is kept.
pub proof fn cache_stays_bounded(
    entries: Seq<EntryView>,
    key: KeyView,
    answer: AnswerView,
    config: CacheConfig,
    now: int,
)
    requires
        entries.len() <= config.max_entries,
    ensures
        with_answer(entries, key, answer, config, now).len() <= config.max_entries,
{
    if entries.len() > 0 {
        oldest_expires_first(entries);
    }
    find_entry_is_exact(entries, key);
}

proof fn least_ttl_is_least(records: Seq<RecordView>, negative: int)
    ensures
        records.len() == 0 ==> least_ttl(records, negative) == negative,
        records.len() > 0 ==> exists|i: int|
            0 <= i < records.len() && (#[trigger] records[i]).ttl == least_ttl(records, negative),
        forall|i: int|
            0 <= i < records.len() ==> least_ttl(records, negative) <= (#[trigger] records[i]).ttl,
    decreases records.len(),
{
    if records.len() == 1 {
        assert(records[0].ttl == least_ttl(records, negative));
    } else if records.len() > 1 {
        let front = records.drop_last();
        least_ttl_is_least(front, negative);
        assert forall|i: int| 0 <= i < records.len() implies least_ttl(records, negative) <= (
        #[trigger] records[i]).ttl by {
            if i < front.len() {
                assert(front[i] == records[i]);
            }
        }
        let k = choose|i: int|
            0 <= i < front.len() && (#[trigger] front[i]).ttl == least_ttl(front, negative);
        assert(front[k] == records[k]);
        assert(records[records.len() - 1] == records.last());
    }
}

/// An answer is fresh no longer than any of its records, and no longer than the limit; without
/// records it is fresh for the time that is set for such answers, within the limit. It is fresh for
/// the whole of the shortest of these times.
pub proof fn answers_are_fresh_as_long_as_their_records(answer: AnswerView, config: CacheConfig)
    ensures
        ({
            let secs = fresh_seconds(answer, config);
            &&& 0 <= secs <= config.max_ttl_secs
            &&& forall|i: int|
                0 <= i < answer.records.len() ==> secs <= (#[trigger] answer.records[i]).ttl
            &&& answer.records.len() == 0 ==> secs <= config.negative_ttl_secs
            &&& {
                ||| secs == config.max_ttl_secs
                ||| answer.records.len() == 0 && secs == config.negative_ttl_secs
                ||| exists|i: int|
                    0 <= i < answer.records.len() && secs == (#[trigger] answer.records[i]).ttl
            }
        }),
{
    least_ttl_is_least(answer.records, config.negative_ttl_secs as int);
}

/// Nothing is served as fresh once a record of it has expired, or longer than the limit, and what
/// was kept is served as fresh until then. For the stale time more it may be served when the
/// resolver fails, and no longer.
pub proof fn no_record_is_served_beyond_its_time(
    entries: Seq<EntryView>,
    key: KeyView,
    answer: AnswerView,
    config: CacheConfig,
    now: int,
    later: int,
)
    requires
        keys_are_distinct(entries),
        config.max_entries > 0,
        answer.records.len() > 0,
        now <= later,
    ensures
        ({
            let after = with_answer(entries, key, answer, config, now);
            let stale = 1000 * config.stale_ttl_secs;
            &&& (exists|i: int|
                0 <= i < answer.records.len() && later - now >= 1000 * (
                #[trigger] answer.records[i]).ttl) ==> fresh_answer(after, key, later) is None
            &&& later - now >= 1000 * config.max_ttl_secs ==> fresh_answer(after, key, later) is None
            &&& later - now < 1000 * config.max_ttl_secs && (forall|i: int|
                0 <= i < answer.records.len() ==> later - now < 1000 * (
                #[trigger] answer.records[i]).ttl) ==> fresh_answer(after, key, later) == Some(answer)
            &&& (exists|i: int|
                0 <= i < answer.records.len() && later - now >= 1000 * (
                #[trigger] answer.records[i]).ttl + stale) ==> servable_answer(after, key, later)
                is None
            &&& later - now >= 1000 * config.max_ttl_secs + stale ==> servable_answer(
                after,
                key,
                later,
            ) is None
            &&& later - now < 1000 * config.max_ttl_secs + stale && (forall|i: int|
                0 <= i < answer.records.len() ==> later - now < 1000 * (
                #[trigger] answer.records[i]).ttl + stale) ==> servable_answer(after, key, later)
                == Some(answer)
        }),
{
    kept_answers_are_found(entries, key, answer, config, now, later);
    answers_are_fresh_as_long_as_their_records(answer, config);
}

/// An answer without records is fresh for the time that is set for such answers, within the limit.
pub proof fn empty_answers_are_kept_for_their_time(
    entries: Seq<EntryView>,
    key: KeyView,
    answer: AnswerView,
    config: CacheConfig,
    now: int,
    later: int,
)
    requires
        keys_are_distinct(entries),
        config.max_entries > 0,
        answer.records.len() == 0,
        config.negative_ttl_secs <= config.max_ttl_secs,
    ensures
        ({
            let after = with_answer(entries, key, answer, config, now);
            let age = later - now;
            &&& fresh_answer(after, key, later) == (if age < 1000 * config.negative_ttl_secs {
                Some(answer)
            } else {
                None
            })
            &&& servable_answer(after, key, later) == (if age < 1000 * (config.negative_ttl_secs
                + config.stale_ttl_secs) {
                Some(answer)
            } else {
                None
            })
        }),
{
    kept_answers_are_found(entries, key, answer, config, now, later);
    answers_are_fresh_as_long_as_their_records(answer, config);
}

/// Keeping an answer leaves every other answer as it was, but for one entry that a full cache lets
/// go of: none of the entries expires before that one.
pub proof fn other_answers_stay(
    entries: Seq<EntryView>,
    key: KeyView,
    answer: AnswerView,
    config: CacheConfig,
    now: int,
    i: int,
)
    requires
        keys_are_distinct(entries),
        0 <= i < entries.len(),
        entries[i].key != key,
    ensures
        ({
            let after = with_answer(entries, key, answer, config, now);
            let gone = !after.contains(entries[i]);
            &&& keys_are_distinct(after)
            &&& gone ==> entries.len() >= config.max_entries > 0
            &&& gone ==> forall|k: int|
                0 <= k < entries.len() ==> (#[trigger] entries[k]).key != key
                    && entries[i].expires_at <= entries[k].expires_at
            &&& !gone ==> forall|later: int| #[trigger]
                fresh_answer(after, entries[i].key, later) == fresh_answer(
                    entries,
                    entries[i].key,
                    later,
                ) && servable_answer(after, entries[i].key, later) == servable_answer(
                    entries,
                    entries[i].key,
                    later,
                )
            &&& gone ==> forall|later: int| #[trigger]
                fresh_answer(after, entries[i].key, later) is None
        }),
{
    let after = with_answer(entries, key, answer, config, now);
    let entry = entry_for(key, answer, config, now);
    find_entry_is_exact(entries, key);
    found_at_its_place(entries, i);
    if config.max_entries == 0 {
        assert(after[i] == entries[i]);
    } else {
        match find_entry(entries, key) {
            Some(at) => {
                replacement_keeps_keys_distinct(entries, at, entry);
                assert(after[i] == entries[i]);
                found_at_its_place(after, i);
            },
            None => {
                if must_evict(entries, key, config) {
                    let at = oldest(entries);
                    oldest_expires_first(entries);
                    removal_keeps_keys_distinct(entries, at);
                    let middle = entries.remove(at);
                    assert forall|m: int| 0 <= m < middle.len() implies (#[trigger] middle[m]).key
                        != key by {
                        assert(middle[m] == entries[if m < at {
                            m
                        } else {
                            m + 1
                        }]);
                    }
                    addition_keeps_keys_distinct(middle, entry);
                    if i != at {
                        let m = if i < at {
                            i
                        } else {
                            i - 1
                        };
                        assert(middle[m] == entries[i]);
                        assert(after[m] == entries[i]);
                        found_at_its_place(after, m);
                    } else {
                        find_entry_is_exact(after, entries[i].key);
                        assert forall|m: int| 0 <= m < after.len() implies (#[trigger] after[m]).key
                            != entries[i].key by {
                            if m < middle.len() {
                                let from = if m < at {
                                    m
                                } else {
                                    m + 1
                                };
                                assert(after[m] == middle[m] && middle[m] == entries[from]);
                                if from < i {
                                    assert(entries[from].key != entries[i].key);
                                } else {
                                    assert(entries[i].key != entries[from].key);
                                }
                            } else {
                                assert(after[m] == entry);
                            }
                        }
                        if after.contains(entries[i]) {
                            let m = choose|m: int| 0 <= m < after.len() && after[m] == entries[i];
                            assert(after[m].key != entries[i].key);
                        }
                    }
                } else {
                    addition_keeps_keys_distinct(entries, entry);
                    assert(after[i] == entries[i]);
                    found_at_its_place(after, i);
                }
            },
        }
    }
}

/// Queries for one name, however it is spelt, share an answer; those for another type, class or
/// name do not.
pub proof fn keys_tell_queries_apart(
    name: Seq<char>,
    qtype: u16,
    qclass: u16,
    other: Seq<char>,
    other_type: u16,
    other_class: u16,
)
    ensures
        key_of_query(name, qtype, qclass) == key_of_query(other, other_type, other_class) <==> normal(
            name,
        ) == normal(other) && qtype == other_type && qclass == other_class,
{
}

} // verus!
