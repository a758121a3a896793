//! Budgets per second, abuse breakers, and bounded tables of them by client. Time is counted in
//! microseconds from the start of the program.
use vstd::prelude::*;
use vstd::arithmetic::power2::{lemma2_to64, lemma2_to64_rest, lemma_pow2_adds, lemma_pow2_pos, pow2};

use crate::dns::{ipv4_bytes, ipv4_rdata, ipv6_bytes, ipv6_rdata};
use crate::net::{shifted, IpAddr};

verus! {

/// How many keys a table holds before it makes room for a new one.
pub const MAX_CLIENT_RATE_ENTRIES: usize = 4_096;

/// How many keys a table holds at the most.
pub const TABLE_CAPACITY: usize = 8_192;

pub open spec fn seconds(now: u64) -> u64 {
    now / 1_000_000
}

/// A number of seconds as a bucket keeps it, in thirty-two bits.
pub open spec fn kept_second(second: u64) -> u32 {
    (second % 0x1_0000_0000) as u32
}

pub open spec fn capped32(value: usize) -> int {
    if value > u32::MAX {
        u32::MAX as int
    } else {
        value as int
    }
}

fn cap32(value: usize) -> (r: u64)
    ensures
        r == capped32(value),
{
    if value > u32::MAX as usize {
        u32::MAX as u64
    } else {
        value as u64
    }
}

// ---- budgets -------------------------------------------------------------------------

/// What was spent in one second.
#[derive(Clone, Copy, Debug, PartialEq, Eq, Structural)]
pub struct Spent {
    pub window: u32,
    pub count: u32,
}

/// What has been spent after one more amount, where the budget allows it: a new second starts
/// afresh.
pub open spec fn spend(spent: Spent, now: u64, limit: usize, amount: usize) -> Option<Spent> {
    let window = kept_second(seconds(now));
    if limit == 0 || amount > limit {
        None
    } else if spent.window != window {
        Some(Spent { window, count: capped32(amount) as u32 })
    } else if spent.count + capped32(amount) > capped32(limit) {
        None
    } else {
        Some(Spent { window, count: (spent.count + capped32(amount)) as u32 })
    }
}

fn try_spend(spent: Spent, now: u64, limit: usize, amount: usize) -> (r: Option<Spent>)
    ensures
        r == spend(spent, now, limit, amount),
{
    if limit == 0 || amount > limit {
        return None;
    }
    let window: u32 = (now / 1_000_000 % 0x1_0000_0000) as u32;
    let limit: u64 = cap32(limit);
    let amount: u64 = cap32(amount);
    if spent.window != window {
        Some(Spent { window, count: amount as u32 })
    } else if spent.count as u64 + amount > limit {
        None
    } else {
        Some(Spent { window, count: (spent.count as u64 + amount) as u32 })
    }
}

/// A budget per second that is not keyed.
#[derive(Clone, Copy, Debug)]
pub struct AtomicWindowBudget {
    pub spent: Spent,
}

impl AtomicWindowBudget {
    pub fn new() -> (r: AtomicWindowBudget)
        ensures
            r.spent == (Spent { window: 0, count: 0 }),
    {
        AtomicWindowBudget { spent: Spent { window: 0, count: 0 } }
    }

    /// Spends an amount where the budget of this second allows it.
    pub fn allow(&mut self, now: u64, limit: usize, amount: usize) -> (r: bool)
        ensures
            r == (spend(old(self).spent, now, limit, amount) is Some),
            final(self).spent == (match spend(old(self).spent, now, limit, amount) {
                Some(next) => next,
                None => old(self).spent,
            }),
    {
        match try_spend(self.spent, now, limit, amount) {
            Some(next) => {
                self.spent = next;
                true
            },
            None => false,
        }
    }
}

/// What was spent is within the limit after every amount that was allowed.
pub proof fn budgets_hold(spent: Spent, now: u64, limit: usize, amount: usize)
    requires
        spend(spent, now, limit, amount) is Some,
    ensures
        spend(spent, now, limit, amount)->0.count <= limit,
{
}

/// A request for an amount at a time.
pub struct Demand {
    pub now: u64,
    pub amount: usize,
}

/// The state after a list of requests, and the sum of the amounts that were allowed.
pub open spec fn spent_by(start: Spent, limit: usize, demands: Seq<Demand>) -> (Spent, int)
    decreases demands.len(),
{
    if demands.len() == 0 {
        (start, 0)
    } else {
        let (spent, sum) = spent_by(start, limit, demands.drop_last());
        match spend(spent, demands.last().now, limit, demands.last().amount) {
            Some(next) => (next, sum + capped32(demands.last().amount)),
            None => (spent, sum),
        }
    }
}

/// Whatever is asked for within one second, no more than the limit is allowed in all.
pub proof fn a_second_allows_no_more_than_its_limit(
    start: Spent,
    limit: usize,
    demands: Seq<Demand>,
    second: u32,
)
    requires
        start.window != second || start.count <= capped32(limit),
        forall|i: int|
            0 <= i < demands.len() ==> kept_second(seconds((#[trigger] demands[i]).now)) == second,
    ensures
        spent_by(start, limit, demands).1 <= capped32(limit),
{
    spent_so_far(start, limit, demands, second);
}

proof fn spent_so_far(start: Spent, limit: usize, demands: Seq<Demand>, second: u32)
    requires
        start.window != second || start.count <= capped32(limit),
        forall|i: int|
            0 <= i < demands.len() ==> kept_second(seconds((#[trigger] demands[i]).now)) == second,
    ensures
        ({
            let (spent, sum) = spent_by(start, limit, demands);
            &&& if spent.window == second {
                sum <= spent.count <= capped32(limit)
            } else {
                sum == 0
            }
        }),
    decreases demands.len(),
{
    if demands.len() > 0 {
        let front = demands.drop_last();
        assert forall|i: int| 0 <= i < front.len() implies kept_second(
            seconds((#[trigger] front[i]).now),
        ) == second by {
            assert(front[i] == demands[i]);
        }
        spent_so_far(start, limit, front, second);
        assert(demands.last() == demands[demands.len() - 1]);
    }
}

// ---- breakers ------------------------------------------------------------------------

/// A budget with an abuse breaker, and when it was last used.
#[derive(Clone, Copy, Debug, PartialEq, Eq, Structural)]
pub struct AtomicWindowBucket {
    pub spent: Spent,
    pub blocked_until: u64,
    pub last_access: u64,
}

pub open spec fn at_least_one(value: u64) -> u64 {
    if value == 0 {
        1
    } else {
        value
    }
}

pub open spec fn saturating(a: u64, b: u64) -> u64 {
    if a + b > u64::MAX {
        u64::MAX
    } else {
        (a + b) as u64
    }
}

/// The seconds since violations are counted.
pub open spec fn elapsed(spent: Spent, now: u64) -> int {
    if seconds(now) >= spent.window as u64 {
        seconds(now) - spent.window
    } else {
        0
    }
}

/// A bucket whose violations are counted anew from a moment on.
pub open spec fn counted_anew(bucket: AtomicWindowBucket, now: u64) -> AtomicWindowBucket {
    AtomicWindowBucket { spent: Spent { window: kept_second(seconds(now)), count: 0 }, ..bucket }
}

/// The bucket after the breaker was asked: a question in another second than the one from which
/// violations are counted has them counted anew.
pub open spec fn abuse_asked(bucket: AtomicWindowBucket, now: u64) -> AtomicWindowBucket {
    if bucket.blocked_until > seconds(now) || bucket.spent.window as u64 == seconds(now) {
        bucket
    } else {
        counted_anew(bucket, now)
    }
}

/// The bucket after a breaker that many callers share was asked. Violations are kept while their
/// window lasts; without any, the window starts anew.
pub open spec fn shared_asked(
    bucket: AtomicWindowBucket,
    now: u64,
    window_secs: u64,
) -> AtomicWindowBucket {
    if bucket.blocked_until > seconds(now) || (bucket.spent.count > 0 && elapsed(bucket.spent, now)
        < at_least_one(window_secs)) {
        bucket
    } else {
        counted_anew(bucket, now)
    }
}

/// Whether the breaker lets the caller pass.
pub open spec fn abuse_passes(bucket: AtomicWindowBucket, now: u64, window_secs: u64) -> bool {
    &&& bucket.blocked_until <= seconds(now)
    &&& bucket.spent.window as u64 != seconds(now) || window_secs != 0
}

/// The number of violations after one more, and the second from which they are counted.
pub open spec fn violations(spent: Spent, now: u64, window_secs: u64) -> (u64, int) {
    if elapsed(spent, now) >= at_least_one(window_secs) {
        (seconds(now), 1)
    } else {
        (spent.window as u64, spent.count + 1)
    }
}

/// Whether one more violation opens the breaker.
pub open spec fn abuse_opens(
    bucket: AtomicWindowBucket,
    now: u64,
    window_secs: u64,
    threshold: usize,
) -> bool {
    threshold != 0 && violations(bucket.spent, now, window_secs).1 >= capped32(threshold)
}

/// The bucket after one more violation.
pub open spec fn abuse_recorded(
    bucket: AtomicWindowBucket,
    now: u64,
    window_secs: u64,
    cooldown_secs: u64,
    threshold: usize,
) -> AtomicWindowBucket {
    if threshold == 0 {
        bucket
    } else {
        let (start, count) = violations(bucket.spent, now, window_secs);
        AtomicWindowBucket {
            spent: Spent {
                window: kept_second(start),
                count: if count > u32::MAX {
                    u32::MAX
                } else {
                    count as u32
                },
            },
            blocked_until: if abuse_opens(bucket, now, window_secs, threshold) {
                saturating(seconds(now), at_least_one(cooldown_secs))
            } else {
                bucket.blocked_until
            },
            last_access: bucket.last_access,
        }
    }
}

/// The bucket with a block that has the given milliseconds left.
pub open spec fn block_restored(bucket: AtomicWindowBucket, now: u64, remaining_ms: u64) -> AtomicWindowBucket {
    AtomicWindowBucket {
        spent: bucket.spent,
        blocked_until: saturating(seconds(now), at_least_one(remaining_ms / 1000)),
        last_access: now,
    }
}

/// The bucket without its block.
pub open spec fn block_released(bucket: AtomicWindowBucket) -> AtomicWindowBucket {
    AtomicWindowBucket {
        spent: Spent { window: 0, count: 0 },
        blocked_until: 0,
        last_access: bucket.last_access,
    }
}

impl AtomicWindowBucket {
    pub open spec fn fresh() -> AtomicWindowBucket {
        AtomicWindowBucket {
            spent: Spent { window: 0, count: 0 },
            blocked_until: 0,
            last_access: 0,
        }
    }

    pub fn new() -> (r: AtomicWindowBucket)
        ensures
            r == AtomicWindowBucket::fresh(),
    {
        AtomicWindowBucket {
            spent: Spent { window: 0, count: 0 },
            blocked_until: 0,
            last_access: 0,
        }
    }

    /// Spends an amount where the budget of this second allows it.
    pub fn allow(&mut self, now: u64, limit: usize, amount: usize) -> (r: bool)
        ensures
            r == (spend(old(self).spent, now, limit, amount) is Some),
            *final(self) == (match spend(old(self).spent, now, limit, amount) {
                Some(next) => AtomicWindowBucket { spent: next, ..*old(self) },
                None => *old(self),
            }),
    {
        match try_spend(self.spent, now, limit, amount) {
            Some(next) => {
                self.spent = next;
                true
            },
            None => false,
        }
    }

    /// Asks the breaker whether the caller passes.
    pub fn abuse_allows(&mut self, now: u64, window_secs: u64) -> (r: bool)
        ensures
            r == abuse_passes(*old(self), now, window_secs),
            *final(self) == abuse_asked(*old(self), now),
    {
        let second: u64 = now / 1_000_000;
        if self.blocked_until > second {
            return false;
        }
        if self.spent.window as u64 != second {
            self.spent = Spent { window: (second % 0x1_0000_0000) as u32, count: 0 };
            true
        } else {
            window_secs != 0
        }
    }

    /// Asks a breaker that many callers share whether one of them passes. So many questions come
    /// that a fresh count with each would never reach a threshold: violations stay counted while
    /// their window lasts.
    pub fn shared_abuse_allows(&mut self, now: u64, window_secs: u64) -> (r: bool)
        ensures
            r == abuse_passes(*old(self), now, window_secs),
            *final(self) == shared_asked(*old(self), now, window_secs),
    {
        let second: u64 = now / 1_000_000;
        if self.blocked_until > second {
            return false;
        }
        let begun: u64 = self.spent.window as u64;
        let passed = begun != second || window_secs != 0;
        let window: u64 = if window_secs == 0 {
            1
        } else {
            window_secs
        };
        if self.spent.count == 0 || (second >= begun && second - begun >= window) {
            self.spent = Spent { window: (second % 0x1_0000_0000) as u32, count: 0 };
        }
        passed
    }

    pub fn is_blocked(&self, now: u64) -> (r: bool)
        ensures
            r == (self.blocked_until > seconds(now)),
    {
        self.blocked_until > now / 1_000_000
    }

    /// Blocks the caller for what is left of an earlier block, at least one second.
    pub fn restore_blocked(&mut self, now: u64, remaining_ms: u64)
        ensures
            *final(self) == block_restored(*old(self), now, remaining_ms),
    {
        let left: u64 = if remaining_ms / 1000 == 0 {
            1
        } else {
            remaining_ms / 1000
        };
        self.blocked_until = (now / 1_000_000).saturating_add(left);
        self.last_access = now;
    }

    pub fn release_blocked(&mut self)
        ensures
            *final(self) == block_released(*old(self)),
    {
        self.blocked_until = 0;
        self.spent = Spent { window: 0, count: 0 };
    }

    /// Counts a violation. The result says whether it opened the breaker.
    pub fn record_abuse(
        &mut self,
        now: u64,
        window_secs: u64,
        cooldown_secs: u64,
        threshold: usize,
    ) -> (r: bool)
        ensures
            r == abuse_opens(*old(self), now, window_secs, threshold),
            *final(self) == abuse_recorded(
                *old(self),
                now,
                window_secs,
                cooldown_secs,
                threshold,
            ),
    {
        if threshold == 0 {
            return false;
        }
        let second: u64 = now / 1_000_000;
        let window: u64 = if window_secs == 0 {
            1
        } else {
            window_secs
        };
        let cooldown: u64 = if cooldown_secs == 0 {
            1
        } else {
            cooldown_secs
        };
        let begun: u64 = self.spent.window as u64;
        let elapsed: u64 = if second >= begun {
            second - begun
        } else {
            0
        };
        let mut start: u64 = begun;
        let mut count: u64 = self.spent.count as u64 + 1;
        if elapsed >= window {
            start = second;
            count = 1;
        }
        let kept: u32 = if count > u32::MAX as u64 {
            u32::MAX
        } else {
            count as u32
        };
        self.spent = Spent { window: (start % 0x1_0000_0000) as u32, count: kept };
        let opened = count >= cap32(threshold);
        if opened {
            self.blocked_until = second.saturating_add(cooldown);
        }
        opened
    }
}

/// A breaker that a violation opened lets nobody pass until the cooldown is over.
pub proof fn open_breakers_stay_open(
    bucket: AtomicWindowBucket,
    now: u64,
    window_secs: u64,
    cooldown_secs: u64,
    threshold: usize,
    later: u64,
)
    requires
        abuse_opens(bucket, now, window_secs, threshold),
        seconds(later) < seconds(now) + at_least_one(cooldown_secs),
        seconds(later) < u64::MAX,
    ensures
        !abuse_passes(
            abuse_recorded(bucket, now, window_secs, cooldown_secs, threshold),
            later,
            window_secs,
        ),
{
}

/// Asking a shared breaker forgets no violation: one more counts as it would have without the
/// question, and opens the breaker or not as it would have.
pub proof fn questions_forget_no_violation(
    bucket: AtomicWindowBucket,
    asked: u64,
    now: u64,
    window_secs: u64,
    threshold: usize,
)
    requires
        asked <= now,
    ensures
        ({
            let after = shared_asked(bucket, asked, window_secs);
            &&& violations(after.spent, now, window_secs).1 == violations(
                bucket.spent,
                now,
                window_secs,
            ).1
            &&& abuse_opens(after, now, window_secs, threshold) == abuse_opens(
                bucket,
                now,
                window_secs,
                threshold,
            )
        }),
{
    assert(seconds(asked) <= seconds(now));
}

/// A question in the second of the violations, or while the breaker is open, forgets none of them;
/// one at another time forgets them all, so that the next violation is the first of its window.
pub proof fn questions_forget_earlier_seconds(
    bucket: AtomicWindowBucket,
    asked: u64,
    now: u64,
    window_secs: u64,
)
    ensures
        ({
            let after = abuse_asked(bucket, asked);
            let kept = bucket.blocked_until > seconds(asked) || bucket.spent.window as u64
                == seconds(asked);
            &&& kept ==> after == bucket
            &&& !kept ==> violations(after.spent, now, window_secs).1 == 1
        }),
{
}

/// Violations within one window add up, and the one that reaches the threshold opens the breaker.
pub proof fn violations_in_a_window_add_up(
    bucket: AtomicWindowBucket,
    now: u64,
    window_secs: u64,
    cooldown_secs: u64,
    threshold: usize,
)
    requires
        elapsed(bucket.spent, now) < at_least_one(window_secs),
        0 < threshold <= u32::MAX,
    ensures
        abuse_opens(bucket, now, window_secs, threshold) <==> bucket.spent.count + 1 >= threshold,
        ({
            let after = abuse_recorded(bucket, now, window_secs, cooldown_secs, threshold);
            &&& after.spent.window == bucket.spent.window
            &&& bucket.spent.count < u32::MAX ==> after.spent.count == bucket.spent.count + 1
        }),
{
}

/// A block that was released is gone.
pub proof fn released_breakers_are_closed(bucket: AtomicWindowBucket, now: u64, window_secs: u64)
    requires
        window_secs != 0,
    ensures
        abuse_passes(block_released(bucket), now, window_secs),
{
}

// ---- keys ----------------------------------------------------------------------------

/// The network that a client is counted under: the address with the bits behind the prefix
/// cleared, and the prefix.
#[derive(Clone, Copy, Debug, PartialEq, Eq, Structural)]
pub enum AbuseNetworkKey {
    V4(u32, u8),
    V6(u128, u8),
}

pub open spec fn cleared(value: nat, bits: nat) -> nat {
    shifted(value, bits) * pow2(bits)
}

pub open spec fn network_key(client: IpAddr, ipv4_prefix: u8, ipv6_prefix: u8) -> AbuseNetworkKey {
    match client {
        IpAddr::V4(address) => {
            let prefix: u8 = if ipv4_prefix > 32 {
                32
            } else {
                ipv4_prefix
            };
            AbuseNetworkKey::V4(cleared(address as nat, (32 - prefix) as nat) as u32, prefix)
        },
        IpAddr::V6(address) => {
            let prefix: u8 = if ipv6_prefix > 128 {
                128
            } else {
                ipv6_prefix
            };
            AbuseNetworkKey::V6(cleared(address as nat, (128 - prefix) as nat) as u128, prefix)
        },
    }
}

/// The bytes that a client is kept under.
pub open spec fn client_key(client: IpAddr) -> Seq<u8> {
    match client {
        IpAddr::V4(address) => seq![4u8] + ipv4_rdata(address),
        IpAddr::V6(address) => seq![6u8] + ipv6_rdata(address),
    }
}

/// The bytes that a network is kept under.
pub open spec fn network_key_bytes(key: AbuseNetworkKey) -> Seq<u8> {
    match key {
        AbuseNetworkKey::V4(address, prefix) => seq![4u8] + ipv4_rdata(address) + seq![prefix],
        AbuseNetworkKey::V6(address, prefix) => seq![6u8] + ipv6_rdata(address) + seq![prefix],
    }
}

proof fn cleared_is_smaller(value: nat, bits: nat)
    ensures
        cleared(value, bits) <= value,
        cleared(value, bits) == value - value % pow2(bits),
{
    lemma_pow2_pos(bits);
    vstd::arithmetic::div_mod::lemma_fundamental_div_mod(value as int, pow2(bits) as int);
    assert(cleared(value, bits) == pow2(bits) * (value / pow2(bits))) by (nonlinear_arith)
        requires
            cleared(value, bits) == (value / pow2(bits)) * pow2(bits),
    ;
}

/// Clears the low bits of an IPv4 address.
fn clear32(value: u32, drop: u32) -> (r: u32)
    requires
        drop <= 32,
    ensures
        r == cleared(value as nat, drop as nat),
{
    proof {
        cleared_is_smaller(value as nat, drop as nat);
    }
    if drop == 32 {
        proof {
            lemma2_to64();
            vstd::arithmetic::div_mod::lemma_small_mod(value as nat, pow2(32));
        }
        0
    } else {
        proof {
            vstd::arithmetic::power2::lemma_pow2_strictly_increases(drop as nat, 32);
            lemma2_to64();
            vstd::bits::lemma_u32_shl_is_mul(1, drop);
        }
        let unit: u32 = 1u32 << drop;
        value - value % unit
    }
}

/// Clears the low bits of an IPv6 address.
fn clear128(value: u128, drop: u32) -> (r: u128)
    requires
        drop <= 128,
    ensures
        r == cleared(value as nat, drop as nat),
{
    proof {
        cleared_is_smaller(value as nat, drop as nat);
        lemma2_to64();
        lemma2_to64_rest();
        lemma_pow2_adds(64, 64);
    }
    if drop == 128 {
        proof {
            vstd::arithmetic::div_mod::lemma_small_mod(value as nat, pow2(128));
        }
        0
    } else if drop >= 64 {
        let high: u32 = drop - 64;
        proof {
            vstd::arithmetic::power2::lemma_pow2_strictly_increases(high as nat, 64);
            vstd::bits::lemma_u64_shl_is_mul(1, high as u64);
            lemma_pow2_adds(64, high as nat);
        }
        let unit: u128 = ((1u64 << (high as u64)) as u128) * 0x1_0000_0000_0000_0000u128;
        value - value % unit
    } else {
        proof {
            vstd::arithmetic::power2::lemma_pow2_strictly_increases(drop as nat, 64);
            vstd::bits::lemma_u64_shl_is_mul(1, drop as u64);
        }
        let unit: u128 = (1u64 << (drop as u64)) as u128;
        value - value % unit
    }
}

/// The network that a client is counted under.
pub fn abuse_network_key(client: IpAddr, ipv4_prefix: u8, ipv6_prefix: u8) -> (r: AbuseNetworkKey)
    ensures
        r == network_key(client, ipv4_prefix, ipv6_prefix),
{
    match client {
        IpAddr::V4(address) => {
            let prefix: u8 = if ipv4_prefix > 32 {
                32
            } else {
                ipv4_prefix
            };
            AbuseNetworkKey::V4(clear32(address, 32 - prefix as u32), prefix)
        },
        IpAddr::V6(address) => {
            let prefix: u8 = if ipv6_prefix > 128 {
                128
            } else {
                ipv6_prefix
            };
            AbuseNetworkKey::V6(clear128(address, 128 - prefix as u32), prefix)
        },
    }
}

fn push_bytes(out: &mut Vec<u8>, bytes: &[u8])
    ensures
        final(out)@ == old(out)@ + bytes@,
{
    let ghost start = out@;
    let mut i: usize = 0;
    assert(start + bytes@.take(0) =~= start);
    while i < bytes.len()
        invariant
            i <= bytes.len(),
            out@ == start + bytes@.take(i as int),
            start == old(out)@,
        decreases bytes.len() - i,
    {
        out.push(bytes[i]);
        i = i + 1;
        assert(out@ =~= start + bytes@.take(i as int));
    }
    assert(bytes@.take(i as int) =~= bytes@);
}

pub fn ip_key(client: IpAddr) -> (r: Vec<u8>)
    ensures
        r@ == client_key(client),
{
    let mut out: Vec<u8> = Vec::new();
    match client {
        IpAddr::V4(address) => {
            out.push(4);
            assert(out@ =~= seq![4u8]);
            push_bytes(&mut out, &ipv4_bytes(address));
        },
        IpAddr::V6(address) => {
            out.push(6);
            assert(out@ =~= seq![6u8]);
            push_bytes(&mut out, &ipv6_bytes(address));
        },
    }
    out
}

pub fn abuse_network_bytes(key: AbuseNetworkKey) -> (r: Vec<u8>)
    ensures
        r@ == network_key_bytes(key),
{
    let mut out: Vec<u8> = Vec::new();
    match key {
        AbuseNetworkKey::V4(address, prefix) => {
            out.push(4);
            assert(out@ =~= seq![4u8]);
            push_bytes(&mut out, &ipv4_bytes(address));
            out.push(prefix);
            assert(out@ =~= network_key_bytes(key));
        },
        AbuseNetworkKey::V6(address, prefix) => {
            out.push(6);
            assert(out@ =~= seq![6u8]);
            push_bytes(&mut out, &ipv6_bytes(address));
            out.push(prefix);
            assert(out@ =~= network_key_bytes(key));
        },
    }
    out
}

proof fn ipv4_bytes_are_distinct(a: u32, b: u32)
    requires
        ipv4_rdata(a) == ipv4_rdata(b),
    ensures
        a == b,
{
    crate::dhcp::octets_round_trip(a);
    crate::dhcp::octets_round_trip(b);
}

/// The four words of an IPv6 address, the highest first.
spec fn word(value: u128, i: int) -> u32 {
    if i == 0 {
        (value / 0x1_0000_0000_0000_0000_0000_0000) as u32
    } else if i == 1 {
        (value / 0x1_0000_0000_0000_0000 % 0x1_0000_0000) as u32
    } else if i == 2 {
        (value / 0x1_0000_0000 % 0x1_0000_0000) as u32
    } else {
        (value % 0x1_0000_0000) as u32
    }
}

proof fn words_make_the_number(value: u128)
    ensures
        value == word(value, 0) * 0x1_0000_0000_0000_0000_0000_0000 + word(value, 1)
            * 0x1_0000_0000_0000_0000 + word(value, 2) * 0x1_0000_0000 + word(value, 3),
{
    let v = value as int;
    assert(v / 0x1_0000_0000_0000_0000 == v / 0x1_0000_0000 / 0x1_0000_0000);
    assert(v / 0x1_0000_0000_0000_0000_0000_0000 == v / 0x1_0000_0000_0000_0000 / 0x1_0000_0000);
    assert(0 <= v / 0x1_0000_0000_0000_0000_0000_0000 < 0x1_0000_0000);
}

proof fn words_stand_in_the_bytes(value: u128, i: int)
    requires
        0 <= i < 4,
    ensures
        ipv6_rdata(value).len() == 16,
        ipv6_rdata(value).subrange(4 * i, 4 * i + 4) == ipv4_rdata(word(value, i)),
{
    assert(ipv6_rdata(value).subrange(4 * i, 4 * i + 4) =~= ipv4_rdata(word(value, i)));
}

proof fn ipv6_bytes_are_distinct(a: u128, b: u128)
    requires
        ipv6_rdata(a) == ipv6_rdata(b),
    ensures
        a == b,
{
    assert forall|i: int| 0 <= i < 4 implies #[trigger] word(a, i) == word(b, i) by {
        words_stand_in_the_bytes(a, i);
        words_stand_in_the_bytes(b, i);
        ipv4_bytes_are_distinct(word(a, i), word(b, i));
    }
    assert(word(a, 0) == word(b, 0) && word(a, 1) == word(b, 1) && word(a, 2) == word(b, 2)
        && word(a, 3) == word(b, 3));
    words_make_the_number(a);
    words_make_the_number(b);
}

/// Two clients are never kept under the same bytes.
pub proof fn client_keys_are_distinct(a: IpAddr, b: IpAddr)
    requires
        client_key(a) == client_key(b),
    ensures
        a == b,
{
    let x = client_key(a);
    let y = client_key(b);
    assert(x[0] == y[0]);
    match (a, b) {
        (IpAddr::V4(v), IpAddr::V4(w)) => {
            assert(x.skip(1) =~= ipv4_rdata(v) && y.skip(1) =~= ipv4_rdata(w));
            ipv4_bytes_are_distinct(v, w);
        },
        (IpAddr::V6(v), IpAddr::V6(w)) => {
            assert(x.skip(1) =~= ipv6_rdata(v) && y.skip(1) =~= ipv6_rdata(w));
            ipv6_bytes_are_distinct(v, w);
        },
        _ => {},
    }
}

/// Two networks are never kept under the same bytes.
pub proof fn network_keys_are_distinct(a: AbuseNetworkKey, b: AbuseNetworkKey)
    requires
        network_key_bytes(a) == network_key_bytes(b),
    ensures
        a == b,
{
    let x = network_key_bytes(a);
    let y = network_key_bytes(b);
    assert(x[0] == y[0]);
    match (a, b) {
        (AbuseNetworkKey::V4(v, p), AbuseNetworkKey::V4(w, q)) => {
            assert(x.subrange(1, 5) =~= ipv4_rdata(v) && y.subrange(1, 5) =~= ipv4_rdata(w));
            assert(x[5] == p && y[5] == q);
            ipv4_bytes_are_distinct(v, w);
        },
        (AbuseNetworkKey::V6(v, p), AbuseNetworkKey::V6(w, q)) => {
            assert(x.subrange(1, 17) =~= ipv6_rdata(v) && y.subrange(1, 17) =~= ipv6_rdata(w));
            assert(x[17] == p && y[17] == q);
            ipv6_bytes_are_distinct(v, w);
        },
        _ => {},
    }
}

proof fn cleared_keeps_leading_bits(a: nat, b: nat, bits: nat)
    ensures
        cleared(a, bits) == cleared(b, bits) <==> shifted(a, bits) == shifted(b, bits),
{
    lemma_pow2_pos(bits);
    if cleared(a, bits) == cleared(b, bits) {
        assert(shifted(a, bits) == shifted(b, bits)) by (nonlinear_arith)
            requires
                shifted(a, bits) * pow2(bits) == shifted(b, bits) * pow2(bits),
                pow2(bits) > 0,
        ;
    }
}

/// Clients are counted together exactly when they belong to one network of the configured
/// prefix.
pub proof fn clients_are_counted_by_network(a: IpAddr, b: IpAddr, ipv4_prefix: u8, ipv6_prefix: u8)
    ensures
        network_key(a, ipv4_prefix, ipv6_prefix) == network_key(b, ipv4_prefix, ipv6_prefix)
            <==> crate::net::in_network(
            crate::net::IpNetwork {
                base: a,
                prefix: match network_key(a, ipv4_prefix, ipv6_prefix) {
                    AbuseNetworkKey::V4(_, prefix) => prefix,
                    AbuseNetworkKey::V6(_, prefix) => prefix,
                },
            },
            b,
        ),
{
    match (a, b) {
        (IpAddr::V4(v), IpAddr::V4(w)) => {
            let prefix: u8 = if ipv4_prefix > 32 {
                32
            } else {
                ipv4_prefix
            };
            let bits = (32 - prefix) as nat;
            cleared_is_smaller(v as nat, bits);
            cleared_is_smaller(w as nat, bits);
            cleared_keeps_leading_bits(v as nat, w as nat, bits);
        },
        (IpAddr::V6(v), IpAddr::V6(w)) => {
            let prefix: u8 = if ipv6_prefix > 128 {
                128
            } else {
                ipv6_prefix
            };
            let bits = (128 - prefix) as nat;
            cleared_is_smaller(v as nat, bits);
            cleared_is_smaller(w as nat, bits);
            cleared_keeps_leading_bits(v as nat, w as nat, bits);
        },
        _ => {},
    }
}

/// The number that bytes spell, the highest first.
pub open spec fn network_number(bytes: Seq<u8>) -> int
    decreases bytes.len(),
{
    if bytes.len() == 0 {
        0
    } else {
        network_number(bytes.drop_last()) * 256 + bytes.last()
    }
}

proof fn four_more_bytes(before: Seq<u8>, value: u32)
    ensures
        network_number(before + ipv4_rdata(value)) == network_number(before) * 0x1_0000_0000 + value,
{
    let all = before + ipv4_rdata(value);
    let three = all.drop_last();
    let two = three.drop_last();
    let one = two.drop_last();
    assert(one.drop_last() =~= before);
    reveal_with_fuel(network_number, 5);
    crate::dhcp::octets_are_in_network_order(value, ipv4_rdata(value));
}

/// The data of an address record spells the address, the highest byte first.
pub proof fn ipv6_data_spells_the_address(value: u128)
    ensures
        ipv6_rdata(value).len() == 16,
        network_number(ipv6_rdata(value)) == value,
{
    let none = Seq::<u8>::empty();
    let one = none + ipv4_rdata(word(value, 0));
    let two = one + ipv4_rdata(word(value, 1));
    let three = two + ipv4_rdata(word(value, 2));
    let four = three + ipv4_rdata(word(value, 3));
    four_more_bytes(none, word(value, 0));
    four_more_bytes(one, word(value, 1));
    four_more_bytes(two, word(value, 2));
    four_more_bytes(three, word(value, 3));
    assert(four =~= ipv6_rdata(value));
    words_make_the_number(value);
}

/// What was spent in the second of a moment.
pub open spec fn used_in(spent: Spent, now: u64) -> int {
    if spent.window == now / 1_000_000 % 0x1_0000_0000 {
        spent.count as int
    } else {
        0
    }
}

/// An amount is allowed exactly where there is a limit and what was spent in the same second, with
/// the amount, stays within it; it is then spent in that second, and a new second starts at nothing.
pub proof fn what_is_within_the_budget_is_allowed(
    spent: Spent,
    now: u64,
    limit: usize,
    amount: usize,
)
    requires
        limit <= u32::MAX,
    ensures
        spend(spent, now, limit, amount) is Some <==> limit > 0 && used_in(spent, now) + amount
            <= limit,
        spend(spent, now, limit, amount) is Some ==> used_in(
            spend(spent, now, limit, amount)->0,
            now,
        ) == used_in(spent, now) + amount,
        spend(spent, now, limit, amount) is Some ==> spend(spent, now, limit, amount)->0.window
            == now / 1_000_000 % 0x1_0000_0000,
{
}

/// The violation that brings the number of those in the window to the threshold opens the breaker,
/// and none before it does: it is then open for the cooldown, of a second at least. The first
/// violation behind the window starts a new one.
pub proof fn breakers_open_at_their_threshold(
    bucket: AtomicWindowBucket,
    now: u64,
    window_secs: u64,
    cooldown_secs: u64,
    threshold: usize,
)
    requires
        1 <= threshold <= u32::MAX,
        bucket.spent.count < u32::MAX,
        bucket.spent.window <= now / 1_000_000 <= u32::MAX,
        cooldown_secs <= u32::MAX,
    ensures
        ({
            let second = now / 1_000_000;
            let lasts = if window_secs == 0 {
                1
            } else {
                window_secs as int
            };
            let within = second - bucket.spent.window < lasts;
            let seen = if within {
                bucket.spent.count as int
            } else {
                0
            };
            let opens = abuse_opens(bucket, now, window_secs, threshold);
            let after = abuse_recorded(bucket, now, window_secs, cooldown_secs, threshold);
            &&& opens <==> seen + 1 >= threshold
            &&& after.spent.count == seen + 1
            &&& within ==> after.spent.window == bucket.spent.window
            &&& !within ==> after.spent.window == second
            &&& opens && cooldown_secs > 0 ==> after.blocked_until == second + cooldown_secs
            &&& opens && cooldown_secs == 0 ==> after.blocked_until == second + 1
            &&& !opens ==> after.blocked_until == bucket.blocked_until
        }),
{
}

/// A breaker lets nobody pass before the second in which its block ends, and everybody from then on.
pub proof fn blocks_end_in_their_second(bucket: AtomicWindowBucket, now: u64, window_secs: u64)
    requires
        window_secs > 0,
    ensures
        abuse_passes(bucket, now, window_secs) <==> now / 1_000_000 >= bucket.blocked_until,
{
}

/// A block that is restored lasts for what is left of it, of a second at least; one that is released
/// is over at once, with nothing counted.
pub proof fn blocks_are_restored_and_released(
    bucket: AtomicWindowBucket,
    now: u64,
    remaining_ms: u64,
)
    requires
        now / 1_000_000 <= u32::MAX,
    ensures
        remaining_ms >= 1000 ==> block_restored(bucket, now, remaining_ms).blocked_until == now
            / 1_000_000 + remaining_ms / 1000,
        remaining_ms < 1000 ==> block_restored(bucket, now, remaining_ms).blocked_until == now
            / 1_000_000 + 1,
        block_released(bucket).blocked_until == 0,
        block_released(bucket).spent.count == 0,
{
}

} // verus!
