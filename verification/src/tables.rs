//! Bounded tables of buckets, keyed by bytes.
use vstd::prelude::*;

use crate::buckets::{abuse_asked, abuse_opens, abuse_passes, abuse_recorded, block_released,
    block_restored, client_key, ip_key, spend, AtomicWindowBucket,
    MAX_CLIENT_RATE_ENTRIES, TABLE_CAPACITY};
use crate::lists::copy_list;
use crate::net::IpAddr;

verus! {

/// A value that a table keeps. The one with the least rank makes room for a new one.
pub trait Bucket: Copy {
    spec fn idle_rank(&self) -> u64;

    spec fn empty() -> Self;

    fn rank(&self) -> (r: u64)
        ensures
            r == self.idle_rank(),
    ;

    fn make() -> (r: Self)
        ensures
            r == Self::empty(),
    ;
}

pub struct Slot<B> {
    pub key: Vec<u8>,
    pub bucket: B,
}

pub struct SlotView<B> {
    pub key: Seq<u8>,
    pub bucket: B,
}

impl<B> View for Slot<B> {
    type V = SlotView<B>;

    open spec fn view(&self) -> SlotView<B> {
        SlotView { key: self.key@, bucket: self.bucket }
    }
}

pub open spec fn slot_views<B>(list: Seq<Slot<B>>) -> Seq<SlotView<B>> {
    Seq::new(list.len(), |i: int| list[i]@)
}

/// The position of the key.
pub open spec fn find_slot<B>(slots: Seq<SlotView<B>>, key: Seq<u8>) -> Option<int>
    decreases slots.len(),
{
    if slots.len() == 0 {
        None
    } else {
        match find_slot(slots.drop_last(), key) {
            Some(i) => Some(i),
            None => if slots.last().key == key {
                Some(slots.len() - 1)
            } else {
                None
            },
        }
    }
}

/// The position of the first bucket with the least rank.
pub open spec fn least_used<B: Bucket>(slots: Seq<SlotView<B>>) -> int
    decreases slots.len(),
{
    if slots.len() <= 1 {
        0
    } else {
        let before = least_used(slots.drop_last());
        if slots.last().bucket.idle_rank() < slots[before].bucket.idle_rank() {
            slots.len() - 1
        } else {
            before
        }
    }
}

/// The table after room was made: a table with many keys loses the least used one.
pub open spec fn with_room<B: Bucket>(slots: Seq<SlotView<B>>) -> Seq<SlotView<B>> {
    if slots.len() >= MAX_CLIENT_RATE_ENTRIES {
        slots.remove(least_used(slots))
    } else {
        slots
    }
}

/// The table with the key in it: a new key starts with an empty bucket.
pub open spec fn with_key<B: Bucket>(slots: Seq<SlotView<B>>, key: Seq<u8>) -> Seq<SlotView<B>> {
    if find_slot(slots, key) is Some {
        slots
    } else if slots.len() >= TABLE_CAPACITY {
        slots.remove(0).push(SlotView { key, bucket: B::empty() })
    } else {
        slots.push(SlotView { key, bucket: B::empty() })
    }
}

/// The table in which a key is about to be used.
pub open spec fn prepared<B: Bucket>(slots: Seq<SlotView<B>>, key: Seq<u8>) -> Seq<SlotView<B>> {
    with_key(with_room(slots), key)
}

/// The bucket of the key.
pub open spec fn bucket_of<B: Bucket>(slots: Seq<SlotView<B>>, key: Seq<u8>) -> B {
    match find_slot(slots, key) {
        Some(i) => slots[i].bucket,
        None => B::empty(),
    }
}

/// The table with another bucket for the key.
pub open spec fn with_bucket<B>(slots: Seq<SlotView<B>>, key: Seq<u8>, bucket: B) -> Seq<SlotView<B>> {
    match find_slot(slots, key) {
        Some(i) => slots.update(i, SlotView { key, bucket }),
        None => slots,
    }
}

pub open spec fn slot_keys_are_distinct<B>(slots: Seq<SlotView<B>>) -> bool {
    forall|i: int, k: int|
        0 <= i < k < slots.len() ==> (#[trigger] slots[i]).key != (#[trigger] slots[k]).key
}

/// What every table keeps: no key occurs twice, and the number of keys is bounded.
pub open spec fn table_wf<B>(slots: Seq<SlotView<B>>) -> bool {
    slot_keys_are_distinct(slots) && slots.len() <= TABLE_CAPACITY
}

pub proof fn find_slot_is_exact<B>(slots: Seq<SlotView<B>>, key: Seq<u8>)
    ensures
        match find_slot(slots, key) {
            Some(i) => 0 <= i < slots.len() && slots[i].key == key,
            None => forall|i: int| 0 <= i < slots.len() ==> (#[trigger] slots[i]).key != key,
        },
    decreases slots.len(),
{
    if slots.len() > 0 {
        let front = slots.drop_last();
        find_slot_is_exact(front, key);
        if find_slot(slots, key) is None {
            assert forall|i: int| 0 <= i < slots.len() implies (#[trigger] slots[i]).key
                != key by {
                if i < front.len() {
                    assert(front[i] == slots[i]);
                }
            }
        }
    }
}

proof fn find_slot_stays<B>(slots: Seq<SlotView<B>>, key: Seq<u8>, i: int)
    requires
        0 <= i < slots.len(),
        find_slot(slots.take(i + 1), key) == Some(i),
    ensures
        find_slot(slots, key) == Some(i),
    decreases slots.len(),
{
    if slots.len() == i + 1 {
        assert(slots.take(i + 1) =~= slots);
    } else {
        assert(slots.drop_last().take(i + 1) =~= slots.take(i + 1));
        find_slot_stays(slots.drop_last(), key, i);
    }
}

/// No bucket has a smaller rank than the least used one.
pub proof fn least_used_has_the_least_rank<B: Bucket>(slots: Seq<SlotView<B>>)
    requires
        slots.len() > 0,
    ensures
        0 <= least_used(slots) < slots.len(),
        forall|i: int|
            0 <= i < slots.len() ==> slots[least_used(slots)].bucket.idle_rank() <= (
            #[trigger] slots[i]).bucket.idle_rank(),
    decreases slots.len(),
{
    if slots.len() > 1 {
        let front = slots.drop_last();
        least_used_has_the_least_rank(front);
        assert forall|i: int| 0 <= i < slots.len() implies slots[least_used(
            slots,
        )].bucket.idle_rank() <= (#[trigger] slots[i]).bucket.idle_rank() by {
            if i < front.len() {
                assert(front[i] == slots[i]);
                assert(front[least_used(front)].bucket.idle_rank() <= front[i].bucket.idle_rank());
            }
        }
    }
}

proof fn removal_keeps_wf<B>(slots: Seq<SlotView<B>>, at: int)
    requires
        table_wf(slots),
        0 <= at < slots.len(),
    ensures
        table_wf(slots.remove(at)),
{
    let after = slots.remove(at);
    assert forall|i: int, k: int| 0 <= i < k < after.len() implies (#[trigger] after[i]).key != (
    #[trigger] after[k]).key by {
        let a = if i < at {
            i
        } else {
            i + 1
        };
        let b = if k < at {
            k
        } else {
            k + 1
        };
        assert(after[i] == slots[a] && after[k] == slots[b]);
    }
}

proof fn addition_keeps_wf<B>(slots: Seq<SlotView<B>>, slot: SlotView<B>)
    requires
        slot_keys_are_distinct(slots),
        slots.len() < TABLE_CAPACITY,
        forall|i: int| 0 <= i < slots.len() ==> (#[trigger] slots[i]).key != slot.key,
    ensures
        table_wf(slots.push(slot)),
{
    let after = slots.push(slot);
    assert forall|i: int, k: int| 0 <= i < k < after.len() implies (#[trigger] after[i]).key != (
    #[trigger] after[k]).key by {
        assert(after[i] == slots[i]);
        if k < slots.len() {
            assert(after[k] == slots[k]);
        }
    }
}

proof fn found_at_its_place<B>(slots: Seq<SlotView<B>>, i: int)
    requires
        slot_keys_are_distinct(slots),
        0 <= i < slots.len(),
    ensures
        find_slot(slots, slots[i].key) == Some(i),
{
    find_slot_is_exact(slots, slots[i].key);
    let at = find_slot(slots, slots[i].key);
    if at is None {
        assert(slots[i].key != slots[i].key);
    } else if at->0 < i {
        assert(slots[at->0].key != slots[i].key);
    } else if i < at->0 {
        assert(slots[i].key != slots[at->0].key);
    }
}

/// A key that is put into a table is there, and the table stays as it must be.
pub proof fn with_key_holds_the_key<B: Bucket>(slots: Seq<SlotView<B>>, key: Seq<u8>)
    requires
        table_wf(slots),
    ensures
        table_wf(with_key(slots, key)),
        find_slot(with_key(slots, key), key) is Some,
{
    find_slot_is_exact(slots, key);
    if find_slot(slots, key) is None {
        let slot = SlotView { key, bucket: B::empty() };
        let middle = if slots.len() >= TABLE_CAPACITY {
            removal_keeps_wf(slots, 0);
            slots.remove(0)
        } else {
            slots
        };
        assert forall|i: int| 0 <= i < middle.len() implies (#[trigger] middle[i]).key != key by {
            if slots.len() >= TABLE_CAPACITY {
                assert(middle[i] == slots[i + 1]);
            }
        }
        addition_keeps_wf(middle, slot);
        let after = middle.push(slot);
        assert(after[after.len() - 1] == slot);
        found_at_its_place(after, after.len() - 1);
    }
}

/// A prepared table holds the key, and stays as it must be.
pub proof fn prepared_holds_the_key<B: Bucket>(slots: Seq<SlotView<B>>, key: Seq<u8>)
    requires
        table_wf(slots),
    ensures
        table_wf(with_room(slots)),
        table_wf(prepared(slots, key)),
        find_slot(prepared(slots, key), key) is Some,
{
    if slots.len() >= MAX_CLIENT_RATE_ENTRIES {
        least_used_has_the_least_rank(slots);
        removal_keeps_wf(slots, least_used(slots));
    }
    with_key_holds_the_key(with_room(slots), key);
}

/// Another bucket for a key leaves the keys as they are.
pub proof fn with_bucket_keeps_wf<B>(slots: Seq<SlotView<B>>, key: Seq<u8>, bucket: B)
    requires
        table_wf(slots),
    ensures
        table_wf(with_bucket(slots, key, bucket)),
{
    find_slot_is_exact(slots, key);
    if find_slot(slots, key) is Some {
        let at = find_slot(slots, key)->0;
        let after = with_bucket(slots, key, bucket);
        assert forall|i: int, k: int| 0 <= i < k < after.len() implies (#[trigger] after[i]).key
            != (#[trigger] after[k]).key by {
            assert(after[i].key == slots[i].key && after[k].key == slots[k].key);
        }
    }
}

/// A bucket that is written is the one that is read; the buckets of other keys stay.
pub proof fn with_bucket_is_read_back<B: Bucket>(
    slots: Seq<SlotView<B>>,
    key: Seq<u8>,
    bucket: B,
    other: Seq<u8>,
)
    requires
        table_wf(slots),
        find_slot(slots, key) is Some,
    ensures
        bucket_of(with_bucket(slots, key, bucket), key) == bucket,
        other != key ==> bucket_of(with_bucket(slots, key, bucket), other) == bucket_of(
            slots,
            other,
        ),
{
    let after = with_bucket(slots, key, bucket);
    find_slot_is_exact(slots, key);
    let at = find_slot(slots, key)->0;
    with_bucket_keeps_wf(slots, key, bucket);
    found_at_its_place(after, at);
    if other != key {
        find_slot_is_exact(slots, other);
        find_slot_is_exact(after, other);
        match find_slot(slots, other) {
            Some(i) => {
                assert(after[i] == slots[i]);
                found_at_its_place(after, i);
            },
            None => {
                if find_slot(after, other) is Some {
                    let k = find_slot(after, other)->0;
                    assert(after[k].key == slots[k].key);
                }
            },
        }
    }
}

// ---- executable tables ---------------------------------------------------------------

pub struct BucketTable<B> {
    pub slots: Vec<Slot<B>>,
}

impl<B> View for BucketTable<B> {
    type V = Seq<SlotView<B>>;

    open spec fn view(&self) -> Seq<SlotView<B>> {
        slot_views(self.slots@)
    }
}

fn same_bytes(a: &[u8], b: &[u8]) -> (r: bool)
    ensures
        r == (a@ == b@),
{
    if a.len() != b.len() {
        return false;
    }
    let mut i: usize = 0;
    while i < a.len()
        invariant
            i <= a.len(),
            a@.len() == b@.len(),
            forall|k: int| 0 <= k < i ==> a@[k] == b@[k],
        decreases a.len() - i,
    {
        if a[i] != b[i] {
            assert(a@[i as int] != b@[i as int]);
            return false;
        }
        i = i + 1;
    }
    assert(a@ =~= b@);
    true
}

impl<B: Bucket> BucketTable<B> {
    pub open spec fn wf(&self) -> bool {
        table_wf(self@)
    }

    pub fn new() -> (r: BucketTable<B>)
        ensures
            r@ == Seq::<SlotView<B>>::empty(),
            r.wf(),
    {
        let r: BucketTable<B> = BucketTable { slots: Vec::new() };
        assert(r@ =~= Seq::<SlotView<B>>::empty());
        r
    }

    pub fn len(&self) -> (r: usize)
        ensures
            r == self@.len(),
    {
        self.slots.len()
    }

    pub fn clear(&mut self)
        ensures
            final(self)@ == Seq::<SlotView<B>>::empty(),
            final(self).wf(),
    {
        self.slots = Vec::new();
        assert(self@ =~= Seq::<SlotView<B>>::empty());
    }

    fn position_of(&self, key: &[u8]) -> (r: Option<usize>)
        ensures
            match find_slot(self@, key@) {
                Some(i) => r is Some && r->0 == i && 0 <= i < self.slots@.len(),
                None => r is None,
            },
    {
        let mut i: usize = 0;
        while i < self.slots.len()
            invariant
                i <= self.slots.len(),
                find_slot(self@.take(i as int), key@) is None,
            decreases self.slots.len() - i,
        {
            let ghost next = self@.take(i as int + 1);
            assert(next.drop_last() =~= self@.take(i as int));
            assert(next.last() == self.slots[i as int]@);
            if same_bytes(&self.slots[i].key, key) {
                proof {
                    find_slot_stays(self@, key@, i as int);
                }
                return Some(i);
            }
            i = i + 1;
        }
        assert(self@.take(i as int) =~= self@);
        None
    }

    fn position_of_least_used(&self) -> (r: usize)
        requires
            self.slots@.len() > 0,
        ensures
            r == least_used(self@),
            r < self.slots@.len(),
    {
        let mut best: usize = 0;
        let mut i: usize = 1;
        while i < self.slots.len()
            invariant
                1 <= i <= self.slots.len(),
                best < i,
                best == least_used(self@.take(i as int)),
            decreases self.slots.len() - i,
        {
            let ghost next = self@.take(i as int + 1);
            assert(next.drop_last() =~= self@.take(i as int));
            assert(next.last() == self.slots[i as int]@);
            assert(next[best as int] == self.slots[best as int]@);
            if self.slots[i].bucket.rank() < self.slots[best].bucket.rank() {
                best = i;
            }
            i = i + 1;
        }
        assert(self@.take(i as int) =~= self@);
        best
    }

    /// Makes room where the table has many keys.
    pub fn make_room(&mut self)
        requires
            old(self).wf(),
        ensures
            final(self)@ == with_room(old(self)@),
            final(self).wf(),
    {
        if self.slots.len() >= MAX_CLIENT_RATE_ENTRIES {
            let ghost before = self@;
            let at: usize = self.position_of_least_used();
            let _ = self.slots.remove(at);
            assert(self@ =~= before.remove(at as int));
            proof {
                removal_keeps_wf(before, at as int);
            }
        }
    }

    /// Finds the key, which is put into the table where it was missing.
    pub fn get_or_insert(&mut self, key: &[u8]) -> (r: usize)
        requires
            old(self).wf(),
        ensures
            final(self)@ == with_key(old(self)@, key@),
            final(self).wf(),
            r < final(self)@.len(),
            find_slot(final(self)@, key@) == Some(r as int),
            final(self)@[r as int].bucket == bucket_of(final(self)@, key@),
    {
        proof {
            with_key_holds_the_key(self@, key@);
            find_slot_is_exact(self@, key@);
        }
        match self.position_of(key) {
            Some(i) => i,
            None => {
                let ghost before = self@;
                if self.slots.len() >= TABLE_CAPACITY {
                    let _ = self.slots.remove(0);
                    assert(self@ =~= before.remove(0));
                }
                let ghost middle = self@;
                let slot = Slot { key: copy_list(key), bucket: B::make() };
                self.slots.push(slot);
                assert(self@ =~= middle.push(slot@));
                assert(self@ == with_key(before, key@));
                let at: usize = self.slots.len() - 1;
                proof {
                    assert(self@[at as int] == slot@);
                    found_at_its_place(self@, at as int);
                }
                at
            },
        }
    }

    /// Finds the key after room was made.
    pub fn prepare(&mut self, key: &[u8]) -> (r: usize)
        requires
            old(self).wf(),
        ensures
            final(self)@ == prepared(old(self)@, key@),
            final(self).wf(),
            r < final(self)@.len(),
            find_slot(final(self)@, key@) == Some(r as int),
            final(self)@[r as int].bucket == bucket_of(final(self)@, key@),
    {
        self.make_room();
        self.get_or_insert(key)
    }

    /// Replaces the bucket at a position.
    pub fn put(&mut self, key: &[u8], at: usize, bucket: B)
        requires
            old(self).wf(),
            at < old(self)@.len(),
            find_slot(old(self)@, key@) == Some(at as int),
        ensures
            final(self)@ == with_bucket(old(self)@, key@, bucket),
            final(self).wf(),
    {
        let ghost before = self@;
        proof {
            with_bucket_keeps_wf(before, key@, bucket);
        }
        let slot = Slot { key: copy_list(key), bucket };
        self.slots.set(at, slot);
        assert(self@ =~= before.update(at as int, slot@));
    }

    /// The bucket at a position.
    pub fn get(&self, at: usize) -> (r: B)
        requires
            at < self@.len(),
        ensures
            r == self@[at as int].bucket,
    {
        self.slots[at].bucket
    }
}

// ---- budgets and breakers by key -----------------------------------------------------

impl Bucket for AtomicWindowBucket {
    open spec fn idle_rank(&self) -> u64 {
        self.last_access
    }

    open spec fn empty() -> AtomicWindowBucket {
        AtomicWindowBucket::fresh()
    }

    fn rank(&self) -> (r: u64) {
        self.last_access
    }

    fn make() -> (r: AtomicWindowBucket) {
        AtomicWindowBucket::new()
    }
}

pub type Windows = Seq<SlotView<AtomicWindowBucket>>;

/// The bucket of a key as it is used now.
pub open spec fn touched(slots: Windows, key: Seq<u8>, now: u64) -> AtomicWindowBucket {
    AtomicWindowBucket { last_access: now, ..bucket_of(prepared(slots, key), key) }
}

/// The table after an amount was asked for under a key.
pub open spec fn table_spent(
    slots: Windows,
    key: Seq<u8>,
    now: u64,
    limit: usize,
    amount: usize,
) -> Windows {
    let bucket = touched(slots, key, now);
    with_bucket(
        prepared(slots, key),
        key,
        match spend(bucket.spent, now, limit, amount) {
            Some(spent) => AtomicWindowBucket { spent, ..bucket },
            None => bucket,
        },
    )
}

/// Whether the budget of the key allows an amount.
pub open spec fn table_allows(
    slots: Windows,
    key: Seq<u8>,
    now: u64,
    limit: usize,
    amount: usize,
) -> bool {
    spend(touched(slots, key, now).spent, now, limit, amount) is Some
}

/// The table after the breaker of a key was asked.
pub open spec fn table_asked(slots: Windows, key: Seq<u8>, now: u64) -> Windows {
    with_bucket(prepared(slots, key), key, abuse_asked(touched(slots, key, now), now))
}

/// The table after a violation under a key.
pub open spec fn table_recorded(
    slots: Windows,
    key: Seq<u8>,
    now: u64,
    window_secs: u64,
    cooldown_secs: u64,
    threshold: usize,
) -> Windows {
    with_bucket(
        prepared(slots, key),
        key,
        abuse_recorded(touched(slots, key, now), now, window_secs, cooldown_secs, threshold),
    )
}

/// The table with a block under a key.
pub open spec fn table_blocked(slots: Windows, key: Seq<u8>, now: u64, remaining_ms: u64) -> Windows {
    let ready = prepared(slots, key);
    with_bucket(ready, key, block_restored(bucket_of(ready, key), now, remaining_ms))
}

/// The table without a block under a key.
pub open spec fn table_released(slots: Windows, key: Seq<u8>) -> Windows {
    let ready = with_key(slots, key);
    with_bucket(ready, key, block_released(bucket_of(ready, key)))
}

pub struct KeyedWindowBudgetTable {
    pub buckets: BucketTable<AtomicWindowBucket>,
}

impl View for KeyedWindowBudgetTable {
    type V = Windows;

    open spec fn view(&self) -> Windows {
        self.buckets@
    }
}

impl KeyedWindowBudgetTable {
    pub open spec fn wf(&self) -> bool {
        self.buckets.wf()
    }

    pub fn new() -> (r: KeyedWindowBudgetTable)
        ensures
            r@ == Seq::<SlotView<AtomicWindowBucket>>::empty(),
            r.wf(),
    {
        KeyedWindowBudgetTable { buckets: BucketTable::new() }
    }

    pub fn allow(&mut self, key: &[u8], now: u64, limit: usize, amount: usize) -> (r: bool)
        requires
            old(self).wf(),
        ensures
            r == table_allows(old(self)@, key@, now, limit, amount),
            final(self)@ == table_spent(old(self)@, key@, now, limit, amount),
            final(self).wf(),
    {
        let at: usize = self.buckets.prepare(key);
        let mut bucket = self.buckets.get(at);
        bucket.last_access = now;
        let r = bucket.allow(now, limit, amount);
        self.buckets.put(key, at, bucket);
        r
    }

    pub fn abuse_allows(&mut self, key: &[u8], now: u64, window_secs: u64) -> (r: bool)
        requires
            old(self).wf(),
        ensures
            r == abuse_passes(touched(old(self)@, key@, now), now, window_secs),
            final(self)@ == table_asked(old(self)@, key@, now),
            final(self).wf(),
    {
        let at: usize = self.buckets.prepare(key);
        let mut bucket = self.buckets.get(at);
        bucket.last_access = now;
        let r = bucket.abuse_allows(now, window_secs);
        self.buckets.put(key, at, bucket);
        r
    }

    pub fn record_abuse(
        &mut self,
        key: &[u8],
        now: u64,
        window_secs: u64,
        cooldown_secs: u64,
        threshold: usize,
    ) -> (r: bool)
        requires
            old(self).wf(),
        ensures
            r == abuse_opens(touched(old(self)@, key@, now), now, window_secs, threshold),
            final(self)@ == table_recorded(
                old(self)@,
                key@,
                now,
                window_secs,
                cooldown_secs,
                threshold,
            ),
            final(self).wf(),
    {
        let at: usize = self.buckets.prepare(key);
        let mut bucket = self.buckets.get(at);
        bucket.last_access = now;
        let r = bucket.record_abuse(now, window_secs, cooldown_secs, threshold);
        self.buckets.put(key, at, bucket);
        r
    }

    pub fn restore_blocked(&mut self, key: &[u8], now: u64, remaining_ms: u64)
        requires
            old(self).wf(),
        ensures
            final(self)@ == table_blocked(old(self)@, key@, now, remaining_ms),
            final(self).wf(),
    {
        let at: usize = self.buckets.prepare(key);
        let mut bucket = self.buckets.get(at);
        bucket.restore_blocked(now, remaining_ms);
        self.buckets.put(key, at, bucket);
    }

    pub fn release_blocked(&mut self, key: &[u8])
        requires
            old(self).wf(),
        ensures
            final(self)@ == table_released(old(self)@, key@),
            final(self).wf(),
    {
        let at: usize = self.buckets.get_or_insert(key);
        let mut bucket = self.buckets.get(at);
        bucket.release_blocked();
        self.buckets.put(key, at, bucket);
    }

    pub fn len(&self) -> (r: usize)
        ensures
            r == self@.len(),
    {
        self.buckets.len()
    }

    pub fn clear(&mut self)
        ensures
            final(self)@ == Seq::<SlotView<AtomicWindowBucket>>::empty(),
            final(self).wf(),
    {
        self.buckets.clear();
    }
}

// ---- requests in flight by client ----------------------------------------------------

/// The requests of one client that are being served. The serial tells one bucket of a client
/// from a later one.
#[derive(Clone, Copy, Debug, PartialEq, Eq, Structural)]
pub struct ClientAdmissionBucket {
    pub active: u64,
    pub last_access: u64,
    pub serial: u64,
}

impl Bucket for ClientAdmissionBucket {
    open spec fn idle_rank(&self) -> u64 {
        if self.active != 0 {
            u64::MAX
        } else {
            self.last_access
        }
    }

    open spec fn empty() -> ClientAdmissionBucket {
        ClientAdmissionBucket { active: 0, last_access: 0, serial: 0 }
    }

    fn rank(&self) -> (r: u64) {
        if self.active != 0 {
            u64::MAX
        } else {
            self.last_access
        }
    }

    fn make() -> (r: ClientAdmissionBucket) {
        ClientAdmissionBucket { active: 0, last_access: 0, serial: 0 }
    }
}

/// The right to have one request served. It is handed back when the request is done.
#[derive(Debug, PartialEq, Eq)]
pub struct ClientPermit {
    pub client: IpAddr,
    pub serial: u64,
}

pub type Admissions = Seq<SlotView<ClientAdmissionBucket>>;

/// The bucket from which a client asks for a permit: one without a serial takes the next one.
pub open spec fn admission_bucket(slots: Admissions, key: Seq<u8>, next_serial: u64) -> ClientAdmissionBucket {
    let bucket = bucket_of(prepared(slots, key), key);
    if bucket.serial == 0 {
        ClientAdmissionBucket { serial: next_serial, ..bucket }
    } else {
        bucket
    }
}

pub open spec fn following(serial: u64) -> u64 {
    if serial == u64::MAX {
        1
    } else {
        (serial + 1) as u64
    }
}

pub struct ClientAdmissionTable {
    pub buckets: BucketTable<ClientAdmissionBucket>,
    pub next_serial: u64,
}

impl View for ClientAdmissionTable {
    type V = Admissions;

    open spec fn view(&self) -> Admissions {
        self.buckets@
    }
}

impl ClientAdmissionTable {
    pub open spec fn wf(&self) -> bool {
        self.buckets.wf() && self.next_serial > 0
    }

    pub fn new() -> (r: ClientAdmissionTable)
        ensures
            r@ == Seq::<SlotView<ClientAdmissionBucket>>::empty(),
            r.next_serial == 1,
            r.wf(),
    {
        ClientAdmissionTable { buckets: BucketTable::new(), next_serial: 1 }
    }

    /// Asks for a permit: there is one where the client has fewer requests in flight than the
    /// limit.
    pub fn try_acquire(&mut self, client: IpAddr, limit: usize, now: u64) -> (r: Option<
        ClientPermit,
    >)
        requires
            old(self).wf(),
        ensures
            ({
                let key = client_key(client);
                let ready = prepared(old(self)@, key);
                let bucket = admission_bucket(old(self)@, key, old(self).next_serial);
                if bucket.active >= limit as u64 {
                    r is None && final(self)@ == with_bucket(ready, key, bucket)
                } else {
                    &&& r == Some(ClientPermit { client, serial: bucket.serial })
                    &&& final(self)@ == with_bucket(
                        ready,
                        key,
                        ClientAdmissionBucket {
                            active: (bucket.active + 1) as u64,
                            last_access: now,
                            serial: bucket.serial,
                        },
                    )
                }
            }),
            final(self).next_serial == following(old(self).next_serial),
            final(self).wf(),
    {
        let key = ip_key(client);
        let at: usize = self.buckets.prepare(&key);
        let mut bucket = self.buckets.get(at);
        if bucket.serial == 0 {
            bucket.serial = self.next_serial;
        }
        self.next_serial = if self.next_serial == u64::MAX {
            1
        } else {
            self.next_serial + 1
        };
        let full = bucket.active >= limit as u64;
        if !full {
            bucket.active = bucket.active + 1;
            bucket.last_access = now;
        }
        self.buckets.put(&key, at, bucket);
        if full {
            None
        } else {
            Some(ClientPermit { client, serial: bucket.serial })
        }
    }

    /// Hands a permit back. A client whose bucket made room for others in the meantime has
    /// nothing to hand back to.
    pub fn release(&mut self, permit: ClientPermit)
        requires
            old(self).wf(),
        ensures
            ({
                let key = client_key(permit.client);
                let bucket = bucket_of(old(self)@, key);
                if find_slot(old(self)@, key) is Some && bucket.serial == permit.serial
                    && bucket.active > 0 {
                    final(self)@ == with_bucket(
                        old(self)@,
                        key,
                        ClientAdmissionBucket {
                            active: (bucket.active - 1) as u64,
                            last_access: 0,
                            serial: bucket.serial,
                        },
                    )
                } else {
                    final(self)@ == old(self)@
                }
            }),
            final(self).next_serial == old(self).next_serial,
            final(self).wf(),
    {
        let key = ip_key(permit.client);
        match self.buckets.position_of(&key) {
            Some(at) => {
                let mut bucket = self.buckets.get(at);
                if bucket.serial == permit.serial && bucket.active > 0 {
                    bucket.active = bucket.active - 1;
                    bucket.last_access = 0;
                    self.buckets.put(&key, at, bucket);
                }
            },
            None => {},
        }
    }
}

/// A client that is served has as many requests in flight as permits, and never more than the
/// limit: each permit counts one.
pub proof fn permits_are_counted(
    slots: Admissions,
    client: IpAddr,
    next_serial: u64,
    limit: usize,
    now: u64,
)
    requires
        table_wf(slots),
        admission_bucket(slots, client_key(client), next_serial).active < limit,
    ensures
        ({
            let key = client_key(client);
            let bucket = admission_bucket(slots, key, next_serial);
            let after = with_bucket(
                prepared(slots, key),
                key,
                ClientAdmissionBucket {
                    active: (bucket.active + 1) as u64,
                    last_access: now,
                    serial: bucket.serial,
                },
            );
            &&& bucket_of(after, key).active == bucket.active + 1
            &&& bucket_of(after, key).active <= limit
        }),
{
    let key = client_key(client);
    let bucket = admission_bucket(slots, key, next_serial);
    prepared_holds_the_key(slots, key);
    with_bucket_is_read_back(
        prepared(slots, key),
        key,
        ClientAdmissionBucket {
            active: (bucket.active + 1) as u64,
            last_access: now,
            serial: bucket.serial,
        },
        key,
    );
}

/// A block that was set is seen by every later question until it ends, whatever was kept under
/// the key before.
pub proof fn blocks_are_seen(slots: Windows, key: Seq<u8>, now: u64, remaining_ms: u64)
    requires
        table_wf(slots),
    ensures
        bucket_of(table_blocked(slots, key, now, remaining_ms), key).blocked_until
            == crate::buckets::saturating(
            crate::buckets::seconds(now),
            crate::buckets::at_least_one(remaining_ms / 1000),
        ),
        table_wf(table_blocked(slots, key, now, remaining_ms)),
{
    let ready = prepared(slots, key);
    prepared_holds_the_key(slots, key);
    let bucket = block_restored(bucket_of(ready, key), now, remaining_ms);
    with_bucket_is_read_back(ready, key, bucket, key);
    with_bucket_keeps_wf(ready, key, bucket);
}

/// Releasing a key again changes nothing.
pub proof fn releasing_again_changes_nothing(slots: Windows, key: Seq<u8>)
    requires
        table_wf(slots),
    ensures
        table_released(table_released(slots, key), key) == table_released(slots, key),
{
    let ready = with_key(slots, key);
    with_key_holds_the_key(slots, key);
    let freed = block_released(bucket_of(ready, key));
    let once = with_bucket(ready, key, freed);
    with_bucket_is_read_back(ready, key, freed, key);
    find_slot_is_exact(ready, key);
    let at = find_slot(ready, key)->0;
    with_bucket_keeps_wf(ready, key, freed);
    found_at_its_place(once, at);
    assert(with_key(once, key) == once);
    assert(with_bucket(once, key, freed) =~= once);
}

/// Preparing a table leaves the bucket of the key as it was, or lets go of it.
pub proof fn prepared_buckets_are_kept_or_new<B: Bucket>(slots: Seq<SlotView<B>>, key: Seq<u8>)
    requires
        table_wf(slots),
    ensures
        bucket_of(prepared(slots, key), key) == bucket_of(slots, key) || bucket_of(
            prepared(slots, key),
            key,
        ) == B::empty(),
{
    let roomy = with_room(slots);
    let after = prepared(slots, key);
    prepared_holds_the_key(slots, key);
    find_slot_is_exact(slots, key);
    find_slot_is_exact(roomy, key);
    find_slot_is_exact(after, key);
    match find_slot(roomy, key) {
        Some(i) => {
            if slots.len() >= MAX_CLIENT_RATE_ENTRIES {
                least_used_has_the_least_rank(slots);
                let gone = least_used(slots);
                let k = if i < gone {
                    i
                } else {
                    i + 1
                };
                assert(roomy[i] == slots[k]);
                found_at_its_place(slots, k);
            }
        },
        None => {
            let last = after.len() - 1;
            assert(after[last] == (SlotView { key, bucket: B::empty() }));
            found_at_its_place(after, last);
        },
    }
}

/// A released key has no block.
pub proof fn released_keys_pass(slots: Windows, key: Seq<u8>)
    requires
        table_wf(slots),
    ensures
        table_wf(table_released(slots, key)),
        bucket_of(table_released(slots, key), key).blocked_until == 0,
{
    let ready = with_key(slots, key);
    with_key_holds_the_key(slots, key);
    let freed = block_released(bucket_of(ready, key));
    with_bucket_is_read_back(ready, key, freed, key);
    with_bucket_keeps_wf(ready, key, freed);
}

/// A table that is not full keeps every bucket when a key is about to be used.
pub proof fn tables_with_room_keep_their_buckets<B: Bucket>(
    slots: Seq<SlotView<B>>,
    key: Seq<u8>,
    other: Seq<u8>,
)
    requires
        table_wf(slots),
        slots.len() < 4096,
    ensures
        bucket_of(prepared(slots, key), other) == bucket_of(slots, other),
{
    find_slot_is_exact(slots, key);
    find_slot_is_exact(slots, other);
    let after = prepared(slots, key);
    prepared_holds_the_key(slots, key);
    find_slot_is_exact(after, other);
    if find_slot(slots, key) is None {
        assert(after == slots.push(SlotView { key, bucket: B::empty() }));
        match find_slot(slots, other) {
            Some(i) => {
                assert(after[i] == slots[i]);
                found_at_its_place(after, i);
            },
            None => {
                if find_slot(after, other) is Some {
                    let i = find_slot(after, other)->0;
                    if i < slots.len() {
                        assert(after[i] == slots[i]);
                    }
                }
            },
        }
    }
}

/// A full table lets go of one key, which no other was used before; the buckets of the others stay.
pub proof fn full_tables_lose_the_least_used<B: Bucket>(slots: Seq<SlotView<B>>, i: int)
    requires
        table_wf(slots),
        slots.len() >= 4096,
        0 <= i < slots.len(),
        !with_room(slots).contains(slots[i]),
    ensures
        with_room(slots).len() == slots.len() - 1,
        forall|k: int|
            0 <= k < slots.len() ==> slots[i].bucket.idle_rank() <= (
            #[trigger] slots[k]).bucket.idle_rank(),
{
    least_used_has_the_least_rank(slots);
    let at = least_used(slots);
    let after = with_room(slots);
    if i != at {
        let m = if i < at {
            i
        } else {
            i - 1
        };
        assert(after[m] == slots[i]);
    }
}

/// What is spent under a key is spent from its own budget: the table tells how much was spent in the
/// second, and the buckets of other keys stay.
pub proof fn keys_have_their_own_budget(
    slots: Windows,
    key: Seq<u8>,
    other: Seq<u8>,
    now: u64,
    limit: usize,
    amount: usize,
)
    requires
        table_wf(slots),
        slots.len() < 4096,
        limit <= u32::MAX,
        amount > 0,
    ensures
        ({
            let used = crate::buckets::used_in(bucket_of(slots, key).spent, now);
            let after = table_spent(slots, key, now, limit, amount);
            &&& table_allows(slots, key, now, limit, amount) <==> used + amount <= limit
            &&& crate::buckets::used_in(bucket_of(after, key).spent, now) == (if used + amount
                <= limit {
                used + amount
            } else {
                used
            })
            &&& other != key ==> bucket_of(after, other) == bucket_of(slots, other)
        }),
{
    tables_with_room_keep_their_buckets(slots, key, key);
    tables_with_room_keep_their_buckets(slots, key, other);
    prepared_holds_the_key(slots, key);
    let bucket = touched(slots, key, now);
    crate::buckets::what_is_within_the_budget_is_allowed(bucket.spent, now, limit, amount);
    let next = match spend(bucket.spent, now, limit, amount) {
        Some(spent) => AtomicWindowBucket { spent, ..bucket },
        None => bucket,
    };
    with_bucket_is_read_back(prepared(slots, key), key, next, other);
}

/// A violation under a key is counted in its own bucket, which holds then what a violation makes of
/// it; the buckets of other keys stay.
pub proof fn violations_are_counted_by_key(
    slots: Windows,
    key: Seq<u8>,
    other: Seq<u8>,
    now: u64,
    window_secs: u64,
    cooldown_secs: u64,
    threshold: usize,
)
    requires
        table_wf(slots),
        slots.len() < 4096,
    ensures
        ({
            let before = bucket_of(slots, key);
            let after = table_recorded(slots, key, now, window_secs, cooldown_secs, threshold);
            let made = abuse_recorded(before, now, window_secs, cooldown_secs, threshold);
            &&& table_wf(after)
            &&& after.len() <= slots.len() + 1
            &&& bucket_of(after, key).spent == made.spent
            &&& bucket_of(after, key).blocked_until == made.blocked_until
            &&& other != key ==> bucket_of(after, other) == bucket_of(slots, other)
            &&& abuse_opens(touched(slots, key, now), now, window_secs, threshold) == abuse_opens(
                before,
                now,
                window_secs,
                threshold,
            )
        }),
{
    tables_with_room_keep_their_buckets(slots, key, key);
    tables_with_room_keep_their_buckets(slots, key, other);
    prepared_holds_the_key(slots, key);
    let ready = prepared(slots, key);
    let next = abuse_recorded(
        touched(slots, key, now),
        now,
        window_secs,
        cooldown_secs,
        threshold,
    );
    with_bucket_is_read_back(ready, key, next, other);
    with_bucket_keeps_wf(ready, key, next);
    find_slot_is_exact(slots, key);
    find_slot_is_exact(ready, key);
    assert(touched(slots, key, now).spent == bucket_of(slots, key).spent);
    assert(touched(slots, key, now).blocked_until == bucket_of(slots, key).blocked_until);
    assert(ready.len() <= slots.len() + 1);
}

/// Each permit has a number of its own: they count up, and start again at one.
pub proof fn permits_are_numbered(serial: u64)
    ensures
        following(serial) != serial,
        following(serial) > 0,
        serial < 0xffff_ffff_ffff_ffff ==> following(serial) == serial + 1,
{
}

} // verus!
