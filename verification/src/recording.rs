//! What is kept of decisions and incidents: a bounded log in memory, the budget of the durable
//! recording, and what operators are shown of them. Names, payloads and identities are never
//! kept.
use vstd::prelude::*;
use vstd::string::*;

use crate::config::{PrivacyConfig, QueryRecordingRedaction};
use crate::policy::Action;
use crate::text::{decimal, ending_in_number, joined, same_str, texts};

verus! {

/// How many entries operators are shown at once.
pub const MAX_ADMIN_LOG_ENTRIES: usize = 1_024;

pub const MAX_ABUSE_EXPORT_BYTES: u64 = 8_388_608;

pub const MAX_ABUSE_EXPORT_EVENTS: usize = 1_000_000;

/// How many rotated recordings there can be.
pub const MAX_ROTATIONS: u64 = 16;

/// What a decision tells: its action, and the type and class where they are not left out.
#[derive(Clone, Copy, Debug, PartialEq, Eq, Structural)]
pub struct DecisionRecord {
    pub action: Action,
    pub qtype: Option<u16>,
    pub qclass: Option<u16>,
}

/// What is recorded of a decision under a setting.
pub open spec fn redacted(
    action: Action,
    qtype: u16,
    qclass: u16,
    redaction: QueryRecordingRedaction,
) -> DecisionRecord {
    match redaction {
        QueryRecordingRedaction::ActionOnly => DecisionRecord { action, qtype: None, qclass: None },
        QueryRecordingRedaction::Metadata => DecisionRecord {
            action,
            qtype: Some(qtype),
            qclass: Some(qclass),
        },
    }
}

pub fn decision_record(
    action: Action,
    qtype: u16,
    qclass: u16,
    redaction: QueryRecordingRedaction,
) -> (r: DecisionRecord)
    ensures
        r == redacted(action, qtype, qclass, redaction),
{
    match redaction {
        QueryRecordingRedaction::ActionOnly => DecisionRecord { action, qtype: None, qclass: None },
        QueryRecordingRedaction::Metadata => DecisionRecord {
            action,
            qtype: Some(qtype),
            qclass: Some(qclass),
        },
    }
}

/// An incident as the log keeps it, without the client.
#[derive(Clone, Copy, Debug, PartialEq, Eq)]
pub struct IncidentRecord {
    pub cause: &'static str,
    pub expires_at_ms: u64,
}

#[derive(Clone, Copy, Debug, PartialEq, Eq)]
pub enum LogKind {
    Decision(DecisionRecord),
    Incident(IncidentRecord),
}

/// An entry of the log, with the time in milliseconds.
#[derive(Clone, Copy, Debug, PartialEq, Eq)]
pub struct LogEvent {
    pub ts_ms: u64,
    pub kind: LogKind,
}

// ---- the log -------------------------------------------------------------------------

pub open spec fn bounded_product(a: u64, b: u64) -> u64 {
    if a * b > u64::MAX {
        u64::MAX
    } else {
        (a * b) as u64
    }
}

fn product(a: u64, b: u64) -> (r: u64)
    ensures
        r == bounded_product(a, b),
{
    match a.checked_mul(b) {
        Some(value) => value,
        None => u64::MAX,
    }
}

/// The time before which entries are too old.
pub open spec fn cutoff(now_ms: u64, retention_ms: u64) -> u64 {
    if now_ms > retention_ms {
        (now_ms - retention_ms) as u64
    } else {
        0
    }
}

/// How many entries at the front are too old.
pub open spec fn outdated(entries: Seq<LogEvent>, limit: u64) -> int
    decreases entries.len(),
{
    if entries.len() == 0 || entries[0].ts_ms >= limit {
        0
    } else {
        1 + outdated(entries.skip(1), limit)
    }
}

/// The entries from the first one that is not too old.
pub open spec fn retained(entries: Seq<LogEvent>, limit: u64) -> Seq<LogEvent> {
    entries.skip(outdated(entries, limit))
}

/// The last `count` entries.
pub open spec fn last_entries<T>(entries: Seq<T>, count: int) -> Seq<T> {
    if entries.len() > count {
        entries.skip(entries.len() - count)
    } else {
        entries
    }
}

/// The log after an event: entries that are too old for it go first, then the oldest beyond the
/// limit.
pub open spec fn logged(
    entries: Seq<LogEvent>,
    event: LogEvent,
    max_entries: usize,
    retention_ms: u64,
) -> Seq<LogEvent> {
    last_entries(
        retained(entries, cutoff(event.ts_ms, retention_ms)).push(event),
        max_entries as int,
    )
}

proof fn outdated_is_bounded(entries: Seq<LogEvent>, limit: u64)
    ensures
        0 <= outdated(entries, limit) <= entries.len(),
        forall|i: int| 0 <= i < outdated(entries, limit) ==> (#[trigger] entries[i]).ts_ms < limit,
        outdated(entries, limit) < entries.len() ==> entries[outdated(entries, limit)].ts_ms
            >= limit,
    decreases entries.len(),
{
    if entries.len() > 0 && entries[0].ts_ms < limit {
        let rest = entries.skip(1);
        outdated_is_bounded(rest, limit);
        assert forall|i: int| 0 <= i < outdated(entries, limit) implies (#[trigger] entries[i]).ts_ms
            < limit by {
            if i > 0 {
                assert(rest[i - 1] == entries[i]);
            }
        }
        if outdated(entries, limit) < entries.len() {
            assert(rest[outdated(rest, limit)] == entries[outdated(entries, limit)]);
        }
    }
}

proof fn outdated_by_scan(entries: Seq<LogEvent>, limit: u64, n: int)
    requires
        0 <= n <= entries.len(),
        forall|i: int| 0 <= i < n ==> (#[trigger] entries[i]).ts_ms < limit,
        n < entries.len() ==> entries[n].ts_ms >= limit,
    ensures
        outdated(entries, limit) == n,
{
    outdated_is_bounded(entries, limit);
    let found = outdated(entries, limit);
    if found < n {
        assert(entries[found].ts_ms < limit);
    } else if n < found {
        assert(entries[n].ts_ms < limit);
    }
}

/// Copies the entries from a position.
fn copy_from<T: Copy>(entries: &[T], start: usize) -> (r: Vec<T>)
    requires
        start <= entries@.len(),
    ensures
        r@ == entries@.skip(start as int),
{
    let ghost tail = entries@.skip(start as int);
    let mut out: Vec<T> = Vec::new();
    let mut i: usize = start;
    while i < entries.len()
        invariant
            start <= i <= entries@.len(),
            tail == entries@.skip(start as int),
            out@ == tail.take(i - start),
        decreases entries.len() - i,
    {
        out.push(entries[i]);
        i = i + 1;
        assert(out@ =~= tail.take(i - start));
    }
    assert(tail.take(i - start) =~= tail);
    out
}

fn copy_last<T: Copy>(entries: &[T], count: usize) -> (r: Vec<T>)
    ensures
        r@ == last_entries(entries@, count as int),
{
    if entries.len() > count {
        copy_from(entries, entries.len() - count)
    } else {
        let r = copy_from(entries, 0);
        assert(r@ =~= entries@);
        r
    }
}

/// A bounded log in memory.
pub struct QueryLog {
    pub entries: Vec<LogEvent>,
    pub max_entries: usize,
    pub retention_ms: u64,
}

impl View for QueryLog {
    type V = Seq<LogEvent>;

    open spec fn view(&self) -> Seq<LogEvent> {
        self.entries@
    }
}

impl QueryLog {
    pub fn new(config: &PrivacyConfig) -> (r: QueryLog)
        ensures
            r@ == Seq::<LogEvent>::empty(),
            r.max_entries == config.query_log_max_entries,
            r.retention_ms == bounded_product(config.query_log_retention_secs, 1000),
    {
        QueryLog {
            entries: Vec::new(),
            max_entries: config.query_log_max_entries,
            retention_ms: product(config.query_log_retention_secs, 1000),
        }
    }

    fn count_outdated(&self, limit: u64) -> (r: usize)
        ensures
            r == outdated(self@, limit),
            r <= self@.len(),
    {
        let mut i: usize = 0;
        while i < self.entries.len() && self.entries[i].ts_ms < limit
            invariant
                i <= self.entries.len(),
                forall|k: int| 0 <= k < i ==> (#[trigger] self@[k]).ts_ms < limit,
            decreases self.entries.len() - i,
        {
            i = i + 1;
        }
        proof {
            outdated_by_scan(self@, limit, i as int);
        }
        i
    }

    /// Keeps an event.
    pub fn append_event(&mut self, event: LogEvent)
        ensures
            final(self)@ == logged(old(self)@, event, old(self).max_entries, old(self).retention_ms),
            final(self).max_entries == old(self).max_entries,
            final(self).retention_ms == old(self).retention_ms,
    {
        let limit: u64 = event.ts_ms.saturating_sub(self.retention_ms);
        let start: usize = self.count_outdated(limit);
        let mut next = copy_from(&self.entries, start);
        next.push(event);
        self.entries = copy_last(&next, self.max_entries);
    }

    /// The entries that are not too old; the others are dropped.
    pub fn snapshot(&mut self, now_ms: u64) -> (r: Vec<LogEvent>)
        ensures
            r@ == retained(old(self)@, cutoff(now_ms, old(self).retention_ms)),
            final(self)@ == r@,
            final(self).max_entries == old(self).max_entries,
            final(self).retention_ms == old(self).retention_ms,
    {
        let limit: u64 = now_ms.saturating_sub(self.retention_ms);
        let start: usize = self.count_outdated(limit);
        self.entries = copy_from(&self.entries, start);
        let r = copy_from(&self.entries, 0);
        assert(r@ =~= self.entries@);
        r
    }

    /// Forgets every entry. The result is how many there were.
    pub fn clear(&mut self) -> (r: usize)
        ensures
            r == old(self)@.len(),
            final(self)@ == Seq::<LogEvent>::empty(),
            final(self).max_entries == old(self).max_entries,
            final(self).retention_ms == old(self).retention_ms,
    {
        let count: usize = self.entries.len();
        self.entries = Vec::new();
        count
    }
}

// ---- what operators are shown --------------------------------------------------------

/// The decisions among the entries, in order.
pub open spec fn decisions(entries: Seq<LogEvent>) -> Seq<DecisionRecord>
    decreases entries.len(),
{
    if entries.len() == 0 {
        Seq::empty()
    } else {
        let rest = decisions(entries.drop_last());
        match entries.last().kind {
            LogKind::Decision(record) => rest.push(record),
            LogKind::Incident(_) => rest,
        }
    }
}

/// An incident as operators are shown it.
#[derive(Clone, Copy, Debug, PartialEq, Eq)]
pub struct IncidentReview {
    pub ts_ms: u64,
    pub cause: &'static str,
    pub expires_at_ms: u64,
    pub active: bool,
}

pub open spec fn review(ts_ms: u64, record: IncidentRecord, now_ms: u64) -> IncidentReview {
    IncidentReview {
        ts_ms,
        cause: record.cause,
        expires_at_ms: record.expires_at_ms,
        active: record.expires_at_ms > now_ms,
    }
}

/// The incidents among the entries, in order.
pub open spec fn reviews(entries: Seq<LogEvent>, now_ms: u64) -> Seq<IncidentReview>
    decreases entries.len(),
{
    if entries.len() == 0 {
        Seq::empty()
    } else {
        let rest = reviews(entries.drop_last(), now_ms);
        match entries.last().kind {
            LogKind::Incident(record) => rest.push(review(entries.last().ts_ms, record, now_ms)),
            LogKind::Decision(_) => rest,
        }
    }
}

/// The last decisions, in order, and whether there were more.
pub fn shown_decisions(entries: &[LogEvent]) -> (r: (Vec<DecisionRecord>, bool))
    ensures
        r.0@ == last_entries(decisions(entries@), MAX_ADMIN_LOG_ENTRIES as int),
        r.1 == (decisions(entries@).len() > MAX_ADMIN_LOG_ENTRIES),
{
    let mut all: Vec<DecisionRecord> = Vec::new();
    let mut i: usize = 0;
    while i < entries.len()
        invariant
            i <= entries.len(),
            all@ == decisions(entries@.take(i as int)),
        decreases entries.len() - i,
    {
        assert(entries@.take(i as int + 1).drop_last() =~= entries@.take(i as int));
        assert(entries@.take(i as int + 1).last() == entries@[i as int]);
        match entries[i].kind {
            LogKind::Decision(record) => {
                all.push(record);
            },
            LogKind::Incident(_) => {},
        }
        i = i + 1;
    }
    assert(entries@.take(i as int) =~= entries@);
    (copy_last(&all, MAX_ADMIN_LOG_ENTRIES), all.len() > MAX_ADMIN_LOG_ENTRIES)
}

/// The last incidents, the newest first, and whether there were more.
pub fn shown_incidents(entries: &[LogEvent], now_ms: u64) -> (r: (Vec<IncidentReview>, bool))
    ensures
        r.0@ == last_entries(reviews(entries@, now_ms), MAX_ADMIN_LOG_ENTRIES as int).reverse(),
        r.1 == (reviews(entries@, now_ms).len() > MAX_ADMIN_LOG_ENTRIES),
{
    let mut all: Vec<IncidentReview> = Vec::new();
    let mut i: usize = 0;
    while i < entries.len()
        invariant
            i <= entries.len(),
            all@ == reviews(entries@.take(i as int), now_ms),
        decreases entries.len() - i,
    {
        assert(entries@.take(i as int + 1).drop_last() =~= entries@.take(i as int));
        assert(entries@.take(i as int + 1).last() == entries@[i as int]);
        match entries[i].kind {
            LogKind::Incident(record) => {
                all.push(
                    IncidentReview {
                        ts_ms: entries[i].ts_ms,
                        cause: record.cause,
                        expires_at_ms: record.expires_at_ms,
                        active: record.expires_at_ms > now_ms,
                    },
                );
            },
            LogKind::Decision(_) => {},
        }
        i = i + 1;
    }
    assert(entries@.take(i as int) =~= entries@);
    let shown = copy_last(&all, MAX_ADMIN_LOG_ENTRIES);
    let mut out: Vec<IncidentReview> = Vec::new();
    let mut k: usize = shown.len();
    while k > 0
        invariant
            k <= shown.len(),
            out@ == shown@.reverse().take(shown@.len() - k),
        decreases k,
    {
        k = k - 1;
        out.push(shown[k]);
        assert(out@ =~= shown@.reverse().take(shown@.len() - k));
    }
    assert(out@ =~= shown@.reverse());
    (out, all.len() > MAX_ADMIN_LOG_ENTRIES)
}

// ---- incidents -----------------------------------------------------------------------

/// When an incident that begins now ends.
pub open spec fn incident_end(now_ms: u64, client_cooldown: u64, network_cooldown: u64) -> u64 {
    let longer = if client_cooldown > network_cooldown {
        client_cooldown
    } else {
        network_cooldown
    };
    crate::buckets::saturating(now_ms, bounded_product(longer, 1000))
}

pub fn incident_expiry(now_ms: u64, client_cooldown: u64, network_cooldown: u64) -> (r: u64)
    ensures
        r == incident_end(now_ms, client_cooldown, network_cooldown),
{
    let longer: u64 = if client_cooldown > network_cooldown {
        client_cooldown
    } else {
        network_cooldown
    };
    now_ms.saturating_add(product(longer, 1000))
}

// ---- the durable recording -----------------------------------------------------------

/// The bytes of the durable recording: what is taken, and the most that may be.
#[derive(Clone, Copy, Debug, PartialEq, Eq)]
pub struct RecordingBudget {
    pub reserved_bytes: u64,
    pub max_bytes: u64,
}

pub open spec fn exceeds_message(before: Seq<char>, bytes: u64, limit: u64) -> Seq<char> {
    before + decimal(bytes as nat) + " > "@ + decimal(limit as nat)
}

fn exceeds_text(before: &str, bytes: u64, limit: u64) -> (r: String)
    ensures
        r@ == exceeds_message(before@, bytes, limit),
{
    let head = ending_in_number(before, bytes);
    let tail = ending_in_number(" > ", limit);
    let r = joined(head.as_str(), tail.as_str());
    assert(r@ =~= exceeds_message(before@, bytes, limit));
    r
}

impl RecordingBudget {
    pub open spec fn wf(&self) -> bool {
        self.reserved_bytes <= self.max_bytes
    }

    /// Starts with the bytes that the recording has already.
    pub fn new(existing_bytes: u64, max_bytes: u64) -> (r: Result<RecordingBudget, String>)
        ensures
            r is Ok <==> existing_bytes <= max_bytes,
            r is Ok ==> r->Ok_0.wf() && r->Ok_0 == (RecordingBudget {
                reserved_bytes: existing_bytes,
                max_bytes,
            }),
            r is Err ==> r->Err_0@ == exceeds_message(
                "query recording already exceeds configured limit: "@,
                existing_bytes,
                max_bytes,
            ),
    {
        if existing_bytes > max_bytes {
            return Err(
                exceeds_text(
                    "query recording already exceeds configured limit: ",
                    existing_bytes,
                    max_bytes,
                ),
            );
        }
        Ok(RecordingBudget { reserved_bytes: existing_bytes, max_bytes })
    }

    /// Takes the bytes of one more event, before it is written.
    pub fn reserve(&mut self, additional: u64) -> (r: Result<(), String>)
        requires
            old(self).wf(),
        ensures
            final(self).wf(),
            final(self).max_bytes == old(self).max_bytes,
            ({
                let sum = old(self).reserved_bytes + additional;
                if sum > u64::MAX {
                    &&& r is Err
                    &&& r->Err_0@ == "query recording byte limit overflow"@
                    &&& *final(self) == *old(self)
                } else if sum > old(self).max_bytes {
                    &&& r is Err
                    &&& r->Err_0@ == exceeds_message(
                        "query recording byte limit reached: "@,
                        sum as u64,
                        old(self).max_bytes,
                    )
                    &&& *final(self) == *old(self)
                } else {
                    r is Ok && final(self).reserved_bytes == sum
                }
            }),
    {
        let next: u64 = match self.reserved_bytes.checked_add(additional) {
            Some(next) => next,
            None => {
                return Err("query recording byte limit overflow".to_owned());
            },
        };
        if next > self.max_bytes {
            return Err(
                exceeds_text("query recording byte limit reached: ", next, self.max_bytes),
            );
        }
        self.reserved_bytes = next;
        Ok(())
    }
}

/// The files of a durable recording: the current one and the rotated ones.
pub open spec fn recording_files(path: Seq<char>) -> Seq<Seq<char>> {
    Seq::new(
        (1 + MAX_ROTATIONS) as nat,
        |i: int|
            if i == 0 {
                path
            } else {
                path + "."@ + decimal(i as nat)
            },
    )
}

pub fn recording_targets(path: &str) -> (r: Vec<String>)
    ensures
        texts(r@) == recording_files(path@),
{
    let ghost all = recording_files(path@);
    let mut out: Vec<String> = Vec::new();
    out.push(path.to_owned());
    let mut i: u64 = 1;
    assert(texts(out@) =~= all.take(1));
    while i <= MAX_ROTATIONS
        invariant
            1 <= i <= MAX_ROTATIONS + 1,
            all == recording_files(path@),
            texts(out@) == all.take(i as int),
        decreases MAX_ROTATIONS + 1 - i,
    {
        let ghost before = texts(out@);
        let dotted = joined(path, ".");
        let one = ending_in_number(dotted.as_str(), i);
        assert(one@ == all[i as int]);
        out.push(one);
        assert(texts(out@) =~= before.push(one@));
        i = i + 1;
        assert(texts(out@) =~= all.take(i as int));
    }
    assert(all.take(i as int) =~= all);
    out
}

// ---- deleting the recording ----------------------------------------------------------

/// What became of one file that was asked for, removed or looked for again.
#[derive(Debug, PartialEq, Eq)]
pub enum FileReport {
    /// A regular file, or one that was removed.
    File,
    /// Something that is no regular file.
    Other,
    Missing,
    Failed(String),
}

#[derive(Clone, Copy, Debug, PartialEq, Eq, Structural)]
pub enum DeletionPhase {
    Inspecting,
    Removing,
    Verifying,
}

/// The deletion of a durable recording: every file is looked at before the first is removed, and
/// looked for again behind the last.
#[derive(Debug, PartialEq, Eq)]
pub struct Deletion {
    pub targets: Vec<String>,
    pub phase: DeletionPhase,
    /// The file that is next.
    pub at: usize,
    pub removed: usize,
}

/// Where a deletion stands.
pub struct DeletionView {
    pub targets: Seq<Seq<char>>,
    pub phase: DeletionPhase,
    pub at: int,
    pub removed: int,
}

impl View for Deletion {
    type V = DeletionView;

    open spec fn view(&self) -> DeletionView {
        DeletionView {
            targets: texts(self.targets@),
            phase: self.phase,
            at: self.at as int,
            removed: self.removed as int,
        }
    }
}

/// The next file, or the first of the next phase.
pub open spec fn past(state: DeletionView, next: DeletionPhase, removed: int) -> DeletionView {
    if state.at + 1 < state.targets.len() {
        DeletionView { at: state.at + 1, removed, ..state }
    } else {
        DeletionView { phase: next, at: 0, removed, ..state }
    }
}

/// What a report leads to: where the deletion stands then and, where it is over, how many files
/// were removed; or why it stops.
pub open spec fn deletion_told(state: DeletionView, report: FileReport) -> Result<
    (DeletionView, Option<int>),
    Seq<char>,
> {
    let target = state.targets[state.at];
    match state.phase {
        DeletionPhase::Inspecting => match report {
            FileReport::File | FileReport::Missing => Ok(
                (past(state, DeletionPhase::Removing, state.removed), None),
            ),
            FileReport::Other => Err("recording target "@ + target + " is not a regular file"@),
            FileReport::Failed(error) => Err("inspect recording target "@ + target + ": "@ + error@),
        },
        DeletionPhase::Removing => match report {
            FileReport::File | FileReport::Other => Ok(
                (past(state, DeletionPhase::Verifying, state.removed + 1), None),
            ),
            FileReport::Missing => Ok((past(state, DeletionPhase::Verifying, state.removed), None)),
            FileReport::Failed(error) => Err("delete recording target "@ + target + ": "@ + error@),
        },
        DeletionPhase::Verifying => match report {
            FileReport::Missing => Ok(
                (
                    past(state, DeletionPhase::Verifying, state.removed),
                    if state.at + 1 < state.targets.len() {
                        None
                    } else {
                        Some(state.removed)
                    },
                ),
            ),
            FileReport::File | FileReport::Other => Err(
                "recording target "@ + target + " remains after deletion"@,
            ),
            FileReport::Failed(error) => Err(
                "verify recording deletion "@ + target + ": "@ + error@,
            ),
        },
    }
}

fn about(before: &str, target: &str, after: &str) -> (r: String)
    ensures
        r@ == before@ + target@ + after@,
{
    let head = joined(before, target);
    joined(head.as_str(), after)
}

fn about_error(before: &str, target: &str, error: &str) -> (r: String)
    ensures
        r@ == before@ + target@ + ": "@ + error@,
{
    let head = about(before, target, ": ");
    joined(head.as_str(), error)
}

/// What is wrong with the directory of the recording: `found` says whether it is one, or why it
/// cannot be told.
pub fn recording_parent_fault(parent: &str, found: &Result<bool, String>) -> (r: Option<String>)
    ensures
        match found {
            Ok(true) => r is None,
            Ok(false) => r is Some && r->0@ == "recording parent "@ + parent@
                + " is not a directory"@,
            Err(error) => r is Some && r->0@ == "inspect recording parent "@ + parent@ + ": "@
                + error@,
        },
{
    match found {
        Ok(true) => None,
        Ok(false) => Some(about("recording parent ", parent, " is not a directory")),
        Err(error) => Some(about_error("inspect recording parent ", parent, error.as_str())),
    }
}

impl Deletion {
    pub open spec fn wf(&self) -> bool {
        &&& self.at < self.targets@.len()
        &&& self.targets@.len() == 1 + MAX_ROTATIONS
        &&& self.removed <= self.targets@.len()
        &&& self.phase == DeletionPhase::Inspecting ==> self.removed == 0
        &&& self.phase == DeletionPhase::Removing ==> self.removed <= self.at
    }

    /// Starts with the files of the configured recording.
    pub fn new(path: Option<&str>) -> (r: Result<Deletion, String>)
        ensures
            match path {
                None => r is Err && r->Err_0@ == "durable query recording is not configured"@,
                Some(text) => r is Ok && r->Ok_0.wf() && r->Ok_0@ == (DeletionView {
                    targets: recording_files(text@),
                    phase: DeletionPhase::Inspecting,
                    at: 0,
                    removed: 0,
                }),
            },
    {
        match path {
            None => Err("durable query recording is not configured".to_owned()),
            Some(text) => {
                let targets = recording_targets(text);
                assert(texts(targets@).len() == targets@.len());
                Ok(Deletion { targets, phase: DeletionPhase::Inspecting, at: 0, removed: 0 })
            },
        }
    }

    /// The file that is next.
    pub fn target(&self) -> (r: &str)
        requires
            self.wf(),
        ensures
            r@ == self@.targets[self@.at],
    {
        self.targets[self.at].as_str()
    }

    fn advance(&mut self, next: DeletionPhase)
        requires
            old(self).at < old(self).targets@.len() == 1 + MAX_ROTATIONS,
        ensures
            final(self)@ == past(old(self)@, next, old(self)@.removed),
            final(self).targets == old(self).targets,
    {
        if self.at + 1 < self.targets.len() {
            self.at = self.at + 1;
        } else {
            self.phase = next;
            self.at = 0;
        }
    }

    /// Takes what became of the file that was next. A count says that all is done; an error, that
    /// the deletion stops here.
    pub fn told(&mut self, report: FileReport) -> (r: Result<Option<usize>, String>)
        requires
            old(self).wf(),
        ensures
            final(self).wf(),
            match deletion_told(old(self)@, report) {
                Ok((state, done)) => {
                    &&& final(self)@ == state
                    &&& r is Ok
                    &&& match done {
                        Some(count) => r->Ok_0 is Some && r->Ok_0->0 == count,
                        None => r->Ok_0 is None,
                    }
                },
                Err(message) => {
                    &&& *final(self) == *old(self)
                    &&& r is Err
                    &&& r->Err_0@ == message
                },
            },
    {
        assert(texts(self.targets@)[self.at as int] == self.targets@[self.at as int]@);
        let target = self.targets[self.at].as_str();
        match self.phase {
            DeletionPhase::Inspecting => match report {
                FileReport::File | FileReport::Missing => {
                    self.advance(DeletionPhase::Removing);
                    Ok(None)
                },
                FileReport::Other => Err(
                    about("recording target ", target, " is not a regular file"),
                ),
                FileReport::Failed(error) => Err(
                    about_error("inspect recording target ", target, error.as_str()),
                ),
            },
            DeletionPhase::Removing => match report {
                FileReport::File | FileReport::Other => {
                    self.removed = self.removed + 1;
                    self.advance(DeletionPhase::Verifying);
                    Ok(None)
                },
                FileReport::Missing => {
                    self.advance(DeletionPhase::Verifying);
                    Ok(None)
                },
                FileReport::Failed(error) => Err(
                    about_error("delete recording target ", target, error.as_str()),
                ),
            },
            DeletionPhase::Verifying => match report {
                FileReport::Missing => {
                    let over = self.at + 1 == self.targets.len();
                    let removed: usize = self.removed;
                    self.advance(DeletionPhase::Verifying);
                    if over {
                        Ok(Some(removed))
                    } else {
                        Ok(None)
                    }
                },
                FileReport::File | FileReport::Other => Err(
                    about("recording target ", target, " remains after deletion"),
                ),
                FileReport::Failed(error) => Err(
                    about_error("verify recording deletion ", target, error.as_str()),
                ),
            },
        }
    }
}

/// Where a deletion stands behind some reports, unless it was stopped.
pub open spec fn deletion_after(path: Seq<char>, reports: Seq<FileReport>) -> Option<DeletionView>
    decreases reports.len(),
{
    if reports.len() == 0 {
        Some(
            DeletionView {
                targets: recording_files(path),
                phase: DeletionPhase::Inspecting,
                at: 0,
                removed: 0,
            },
        )
    } else {
        match deletion_after(path, reports.drop_last()) {
            None => None,
            Some(state) => match deletion_told(state, reports.last()) {
                Ok((next, _)) => Some(next),
                Err(_) => None,
            },
        }
    }
}

/// Nothing is removed before every file of the recording was looked at and found to be a regular
/// file or absent, and no other file is ever asked for.
pub proof fn deletions_look_before_they_remove(path: Seq<char>, reports: Seq<FileReport>)
    requires
        deletion_after(path, reports) is Some,
    ensures
        ({
            let state = deletion_after(path, reports)->0;
            &&& state.targets == recording_files(path)
            &&& 0 <= state.at < state.targets.len()
            &&& state.phase == DeletionPhase::Inspecting ==> state.at == reports.len()
            &&& state.phase != DeletionPhase::Inspecting ==> {
                &&& state.targets.len() <= reports.len()
                &&& forall|i: int|
                    0 <= i < state.targets.len() ==> (#[trigger] reports[i] is File
                        || reports[i] is Missing)
            }
            &&& state.phase == DeletionPhase::Inspecting ==> forall|i: int|
                0 <= i < reports.len() ==> (#[trigger] reports[i] is File || reports[i] is Missing)
        }),
    decreases reports.len(),
{
    if reports.len() > 0 {
        let front = reports.drop_last();
        deletions_look_before_they_remove(path, front);
        assert forall|i: int| 0 <= i < front.len() implies front[i] == #[trigger] reports[i] by {}
    }
}

// ---- export --------------------------------------------------------------------------

/// An event of the durable recording, with its payload as it was written.
#[derive(Debug, PartialEq, Eq)]
pub struct ExportEvent {
    pub ts_ms: u64,
    pub kind: String,
    pub payload: String,
}

pub struct ExportView {
    pub ts_ms: u64,
    pub kind: Seq<char>,
    pub payload: Seq<char>,
}

impl View for ExportEvent {
    type V = ExportView;

    open spec fn view(&self) -> ExportView {
        ExportView { ts_ms: self.ts_ms, kind: self.kind@, payload: self.payload@ }
    }
}

pub open spec fn export_views(list: Seq<ExportEvent>) -> Seq<ExportView> {
    Seq::new(list.len(), |i: int| list[i]@)
}

/// Events about incidents are exported.
pub open spec fn exported(kind: Seq<char>) -> bool {
    kind == "blackhole.ddos_incident"@ || kind == "blackhole.ddos_revoke"@
}

/// The last events about incidents, collected one by one.
pub struct IncidentExport {
    pub seen: usize,
    pub events: Vec<ExportEvent>,
}

impl IncidentExport {
    pub open spec fn wf(&self) -> bool {
        self.seen <= MAX_ABUSE_EXPORT_EVENTS && self.events@.len() <= MAX_ADMIN_LOG_ENTRIES
    }

    pub fn new() -> (r: IncidentExport)
        ensures
            r.wf(),
            r.seen == 0,
            r.events@.len() == 0,
    {
        IncidentExport { seen: 0, events: Vec::new() }
    }

    /// Takes the next event of the recording.
    pub fn accept(&mut self, event: ExportEvent) -> (r: Result<(), String>)
        requires
            old(self).wf(),
        ensures
            r is Err <==> old(self).seen == MAX_ABUSE_EXPORT_EVENTS,
            r is Err ==> r->Err_0@ == "abuse recording exceeds the event export bound"@
                && final(self).seen == old(self).seen && final(self).events@ == old(self).events@,
            r is Ok ==> final(self).seen == old(self).seen + 1,
            r is Ok ==> export_views(final(self).events@) == (if exported(event.kind@) {
                last_entries(
                    export_views(old(self).events@).push(event@),
                    MAX_ADMIN_LOG_ENTRIES as int,
                )
            } else {
                export_views(old(self).events@)
            }),
            final(self).wf(),
    {
        if self.seen >= MAX_ABUSE_EXPORT_EVENTS {
            return Err("abuse recording exceeds the event export bound".to_owned());
        }
        self.seen = self.seen + 1;
        if !same_str(event.kind.as_str(), "blackhole.ddos_incident") && !same_str(
            event.kind.as_str(),
            "blackhole.ddos_revoke",
        ) {
            return Ok(());
        }
        let ghost before = export_views(self.events@);
        self.events.push(event);
        assert(export_views(self.events@) =~= before.push(event@));
        if self.events.len() > MAX_ADMIN_LOG_ENTRIES {
            let ghost all = export_views(self.events@);
            let _ = self.events.remove(0);
            assert(export_views(self.events@) =~= all.skip(1));
        }
        Ok(())
    }

    /// Whether the recording held more events than are shown.
    pub fn truncated(&self) -> (r: bool)
        ensures
            r == (self.seen > MAX_ADMIN_LOG_ENTRIES),
    {
        self.seen > MAX_ADMIN_LOG_ENTRIES
    }
}

/// The most bytes of a recording that are exported.
pub fn export_limit(recording_max_bytes: u64) -> (r: u64)
    ensures
        r == if recording_max_bytes < MAX_ABUSE_EXPORT_BYTES {
            recording_max_bytes
        } else {
            MAX_ABUSE_EXPORT_BYTES
        },
{
    if recording_max_bytes < MAX_ABUSE_EXPORT_BYTES {
        recording_max_bytes
    } else {
        MAX_ABUSE_EXPORT_BYTES
    }
}

// ---- laws ----------------------------------------------------------------------------

/// The log stays within its limit, and ends with the newest event where it keeps any.
pub proof fn logs_stay_bounded(
    entries: Seq<LogEvent>,
    event: LogEvent,
    max_entries: usize,
    retention_ms: u64,
)
    ensures
        logged(entries, event, max_entries, retention_ms).len() <= max_entries,
        max_entries > 0 ==> logged(entries, event, max_entries, retention_ms).last() == event,
{
    let limit = cutoff(event.ts_ms, retention_ms);
    outdated_is_bounded(entries, limit);
    let all = retained(entries, limit).push(event);
    assert(all.last() == event);
}

/// A record under the stricter setting tells nothing but the action.
pub proof fn action_only_tells_nothing_else(action: Action, qtype: u16, qclass: u16)
    ensures
        redacted(action, qtype, qclass, QueryRecordingRedaction::ActionOnly) == redacted(
            action,
            0,
            0,
            QueryRecordingRedaction::ActionOnly,
        ),
{
}

/// Of entries in the order of time those stay whose age is within the retention, each of them and
/// in order; the others go.
pub proof fn old_entries_leave_the_log(entries: Seq<LogEvent>, now_ms: u64, retention_ms: u64, i: int)
    requires
        forall|a: int, b: int|
            0 <= a <= b < entries.len() ==> (#[trigger] entries[a]).ts_ms <= (
            #[trigger] entries[b]).ts_ms,
        0 <= i < entries.len(),
    ensures
        ({
            let left = retained(entries, cutoff(now_ms, retention_ms));
            &&& left.len() <= entries.len()
            &&& left == entries.skip(entries.len() - left.len())
            &&& entries[i].ts_ms + retention_ms >= now_ms <==> i >= entries.len() - left.len()
        }),
    decreases entries.len(),
{
    let limit = cutoff(now_ms, retention_ms);
    outdated_is_bounded(entries, limit);
    if entries[0].ts_ms >= limit {
        assert(entries[0].ts_ms <= entries[i].ts_ms);
        assert(entries.skip(0) =~= entries);
    } else {
        let rest = entries.skip(1);
        assert forall|a: int, b: int| 0 <= a <= b < rest.len() implies (#[trigger] rest[a]).ts_ms
            <= (#[trigger] rest[b]).ts_ms by {
            assert(entries[a + 1].ts_ms <= entries[b + 1].ts_ms);
        }
        let left = retained(entries, limit);
        outdated_is_bounded(rest, limit);
        assert(left =~= rest.skip(outdated(rest, limit)));
        if i > 0 {
            old_entries_leave_the_log(rest, now_ms, retention_ms, i - 1);
            assert(rest[i - 1] == entries[i]);
        }
    }
}

/// The newest entries stay, as many as there may be, and the event is the last of them.
pub proof fn the_newest_entries_stay<T>(entries: Seq<T>, count: int, i: int)
    requires
        0 <= count,
        0 <= i < last_entries(entries, count).len(),
    ensures
        last_entries(entries, count).len() == if entries.len() < count {
            entries.len() as int
        } else {
            count
        },
        last_entries(entries, count)[i] == entries[entries.len() - last_entries(
            entries,
            count,
        ).len() + i],
{
}

/// An event is logged behind the entries that are not too old for it, where there is room for it.
pub proof fn events_are_logged(
    entries: Seq<LogEvent>,
    event: LogEvent,
    max_entries: usize,
    retention_ms: u64,
)
    requires
        entries.len() < max_entries,
        forall|a: int|
            0 <= a < entries.len() ==> (#[trigger] entries[a]).ts_ms + retention_ms >= event.ts_ms,
    ensures
        logged(entries, event, max_entries, retention_ms) == entries.push(event),
{
    let limit = cutoff(event.ts_ms, retention_ms);
    outdated_is_bounded(entries, limit);
    if entries.len() > 0 {
        assert(entries[0].ts_ms + retention_ms >= event.ts_ms);
    }
    assert(entries.skip(0) =~= entries);
}

/// The decisions and the incidents of a log are those of its parts, one behind the other.
pub proof fn reviews_go_entry_by_entry(entries: Seq<LogEvent>, more: Seq<LogEvent>, now_ms: u64)
    ensures
        decisions(entries + more) == decisions(entries) + decisions(more),
        reviews(entries + more, now_ms) == reviews(entries, now_ms) + reviews(more, now_ms),
    decreases more.len(),
{
    if more.len() == 0 {
        assert(entries + more =~= entries);
        assert(decisions(entries) + decisions(more) =~= decisions(entries));
        assert(reviews(entries, now_ms) + reviews(more, now_ms) =~= reviews(entries, now_ms));
    } else {
        reviews_go_entry_by_entry(entries, more.drop_last(), now_ms);
        assert((entries + more).drop_last() =~= entries + more.drop_last());
        assert(decisions(entries + more) =~= decisions(entries) + decisions(more));
        assert(reviews(entries + more, now_ms) =~= reviews(entries, now_ms) + reviews(
            more,
            now_ms,
        ));
    }
}

/// An entry is shown as what it is: a decision as it was recorded, and an incident with its time,
/// its cause, its end, and whether that is still to come.
pub proof fn entries_are_shown_as_they_are(event: LogEvent, now_ms: u64)
    ensures
        match event.kind {
            LogKind::Decision(record) => decisions(seq![event]) == seq![record] && reviews(
                seq![event],
                now_ms,
            ).len() == 0,
            LogKind::Incident(record) => {
                &&& decisions(seq![event]).len() == 0
                &&& reviews(seq![event], now_ms).len() == 1
                &&& reviews(seq![event], now_ms)[0].ts_ms == event.ts_ms
                &&& reviews(seq![event], now_ms)[0].cause == record.cause
                &&& reviews(seq![event], now_ms)[0].expires_at_ms == record.expires_at_ms
                &&& reviews(seq![event], now_ms)[0].active <==> now_ms < record.expires_at_ms
            },
        },
{
    let list = seq![event];
    assert(list.drop_last() =~= Seq::<LogEvent>::empty());
    assert(list.last() == event);
    assert(decisions(list.drop_last()).len() == 0);
    assert(reviews(list.drop_last(), now_ms).len() == 0);
    match event.kind {
        LogKind::Decision(record) => {
            assert(decisions(list) =~= seq![record]);
        },
        LogKind::Incident(_) => {},
    }
}

/// A record with the details tells the action, the type and the class as they are.
pub proof fn details_are_told(action: Action, qtype: u16, qclass: u16)
    ensures
        redacted(action, qtype, qclass, QueryRecordingRedaction::Metadata).action == action,
        redacted(action, qtype, qclass, QueryRecordingRedaction::Metadata).qtype == Some(qtype),
        redacted(action, qtype, qclass, QueryRecordingRedaction::Metadata).qclass == Some(qclass),
        redacted(action, qtype, qclass, QueryRecordingRedaction::ActionOnly).action == action,
        redacted(action, qtype, qclass, QueryRecordingRedaction::ActionOnly).qtype is None,
        redacted(action, qtype, qclass, QueryRecordingRedaction::ActionOnly).qclass is None,
{
}

/// An incident lasts until both cooldowns are over, and no longer.
pub proof fn incidents_last_as_long_as_their_cooldowns(now_ms: u64, client: u64, network: u64)
    requires
        now_ms + client * 1000 <= u64::MAX,
        now_ms + network * 1000 <= u64::MAX,
    ensures
        incident_end(now_ms, client, network) >= now_ms + client * 1000,
        incident_end(now_ms, client, network) >= now_ms + network * 1000,
        incident_end(now_ms, client, network) == now_ms + client * 1000 || incident_end(
            now_ms,
            client,
            network,
        ) == now_ms + network * 1000,
{
}

/// The files of a recording are the one at its path and its sixteen rotations.
pub proof fn recordings_have_their_rotations(path: Seq<char>, i: int)
    requires
        1 <= i <= 16,
    ensures
        recording_files(path).len() == 17,
        recording_files(path)[0] == path,
        recording_files(path)[i] == path + seq!['.'] + decimal(i as nat),
{
    reveal_strlit(".");
    assert("."@ =~= seq!['.']);
}

/// A deletion counts the files that it removed, goes on behind those that were absent, and is over
/// when the last file was looked for in vain. A file that is there still stops it, and so does one
/// that is no regular file, before anything is removed.
pub proof fn deletions_count_what_they_removed(state: DeletionView)
    requires
        0 <= state.at < state.targets.len(),
    ensures
        state.phase == DeletionPhase::Inspecting ==> deletion_told(state, FileReport::Other) is Err
            && (deletion_told(state, FileReport::File) matches Ok((next, None)) && next.removed
            == state.removed),
        state.phase == DeletionPhase::Removing ==> (deletion_told(state, FileReport::File) matches Ok(
            (next, None),
        ) && next.removed == state.removed + 1) && (deletion_told(
            state,
            FileReport::Missing,
        ) matches Ok((next, None)) && next.removed == state.removed),
        state.phase == DeletionPhase::Verifying ==> {
            &&& deletion_told(state, FileReport::File) is Err
            &&& deletion_told(state, FileReport::Other) is Err
            &&& state.at + 1 < state.targets.len() ==> (deletion_told(
                state,
                FileReport::Missing,
            ) matches Ok((next, None)) && next.at == state.at + 1 && next.removed == state.removed)
            &&& state.at + 1 == state.targets.len() ==> (deletion_told(
                state,
                FileReport::Missing,
            ) matches Ok((_, Some(count))) && count == state.removed)
        },
{
}

/// The incidents and their revocations are exported, and the decisions are not.
pub proof fn incidents_are_exported()
    ensures
        exported("blackhole.ddos_incident"@),
        exported("blackhole.ddos_revoke"@),
        !exported("blackhole.dns_decision"@),
        !exported("blackhole.ddos_denylist"@),
{
    reveal_strlit("blackhole.ddos_incident");
    reveal_strlit("blackhole.ddos_revoke");
    reveal_strlit("blackhole.dns_decision");
    reveal_strlit("blackhole.ddos_denylist");
    assert("blackhole.dns_decision"@.len() == 22);
    assert("blackhole.ddos_denylist"@[15] == 'd');
    assert("blackhole.ddos_incident"@[15] == 'i');
}

} // verus!
