//! Time logged against a task: fixed durations, concluded intervals and at
//! most one running interval per toggle.
use vstd::prelude::*;
use crate::document::{reached_from, KanbanDocument};
use crate::graph::{lemma_reaches_refl, reaches, TaskGraph};
use crate::item::{KanbanId, KanbanItem, TaskView};

verus! {

/// Timestamps are milliseconds since the Unix epoch. Each one stays within
/// this distance of the epoch (about 285,000 years, beyond every date a
/// calendar library represents), which keeps every sum of durations exact.
pub const TIMESTAMP_LIMIT: i64 = 9_007_199_254_740_992;

/// `t` is a timestamp within the representable range.
pub open spec fn timestamp_ok(t: i64) -> bool {
    -TIMESTAMP_LIMIT <= t <= TIMESTAMP_LIMIT
}

/// One entry of a task's time log.
#[derive(Clone, Copy, Debug, PartialEq, Eq, Structural)]
pub enum TimeEntry {
    /// A manually entered duration, in milliseconds.
    InstanteousDuration(i64),
    /// A finished interval: start and end.
    Concluded(i64, i64),
    /// A running interval: its start.
    Started(i64),
}

impl TimeEntry {
    /// The timestamps that the entry holds are in range.
    pub open spec fn wf(self) -> bool {
        match self {
            TimeEntry::InstanteousDuration(_) => true,
            TimeEntry::Concluded(s, e) => timestamp_ok(s) && timestamp_ok(e),
            TimeEntry::Started(s) => timestamp_ok(s),
        }
    }

    /// Duration of the entry when the clock reads `now`.
    pub open spec fn duration_spec(self, now: i64) -> int {
        match self {
            TimeEntry::InstanteousDuration(d) => d as int,
            TimeEntry::Concluded(s, e) => e - s,
            TimeEntry::Started(s) => now - s,
        }
    }

    pub open spec fn is_started(self) -> bool {
        self is Started
    }
}

/// A task's time log: entries in the order they were made, each with an
/// optional description.
pub type TimeLogView = Seq<(TimeEntry, Option<Seq<char>>)>;

#[derive(Clone, Debug)]
pub struct TimeRecords {
    pub entries: Vec<(TimeEntry, Option<String>)>,
}

/// View of an optional text.
pub open spec fn opt_text(o: Option<String>) -> Option<Seq<char>> {
    match o {
        Some(s) => Some(s@),
        None => None,
    }
}

/// Copy an optional text.
pub fn copy_opt_text(o: &Option<String>) -> (r: Option<String>)
    ensures
        opt_text(r) == opt_text(*o),
{
    match o {
        Some(s) => Some(s.clone()),
        None => None,
    }
}

impl View for TimeRecords {
    type V = TimeLogView;

    open spec fn view(&self) -> TimeLogView {
        self.entries@.map_values(|e: (TimeEntry, Option<String>)| (e.0, opt_text(e.1)))
    }
}

/// Every entry of the log is well formed.
pub open spec fn log_wf(log: TimeLogView) -> bool {
    forall|i: int| 0 <= i < log.len() ==> (#[trigger] log[i]).0.wf()
}

impl TimeRecords {
    pub open spec fn wf(&self) -> bool {
        log_wf(self@)
    }

    /// An empty log.
    pub fn new() -> (r: Self)
        ensures
            r@ == Seq::<(TimeEntry, Option<Seq<char>>)>::empty(),
    {
        TimeRecords { entries: Vec::new() }
    }

    /// A copy of the log.
    pub fn snapshot(&self) -> (r: Self)
        ensures
            r@ == self@,
    {
        let mut entries: Vec<(TimeEntry, Option<String>)> = Vec::new();
        let n = self.entries.len();
        let mut i: usize = 0;
        while i < n
            invariant
                n == self.entries.len(),
                0 <= i <= n,
                entries@.len() == i,
                forall|k: int| 0 <= k < i ==> (#[trigger] entries@[k]).0 == self.entries@[k].0
                    && opt_text(entries@[k].1) == opt_text(self.entries@[k].1),
            decreases n - i,
        {
            let e = &self.entries[i];
            entries.push((e.0, copy_opt_text(&e.1)));
            i = i + 1;
        }
        let r = TimeRecords { entries };
        assert(r@ =~= self@);
        r
    }
}

/// Relies on `SystemTime::now` and `SystemTime::duration_since(UNIX_EPOCH)`:
/// whether the system clock reads at or after the epoch, and its distance
/// from the epoch in milliseconds (`duration_since` hands the distance
/// before the epoch back as its error). Neither call panics; the reading
/// depends on the clock, so nothing is promised of it.
#[verifier::external_body]
fn clock_reading() -> (bool, u128) {
    match std::time::SystemTime::now().duration_since(std::time::UNIX_EPOCH) {
        Ok(d) => (true, d.as_millis()),
        Err(e) => (false, e.duration().as_millis()),
    }
}

/// The current time in milliseconds since the epoch, negative before it. A
/// clock further than `TIMESTAMP_LIMIT` from the epoch reads as the limit.
pub(crate) fn now_millis() -> (r: i64)
    ensures
        timestamp_ok(r),
{
    let (after, ms) = clock_reading();
    let m: i64 = if ms > TIMESTAMP_LIMIT as u128 {
        TIMESTAMP_LIMIT
    } else {
        ms as i64
    };
    if after {
        m
    } else {
        -m
    }
}

impl TimeEntry {
    /// A running interval ends at `now`; other entries stay as they are.
    pub fn conclude_at(self, now: i64) -> (r: Self)
        ensures
            r == (match self {
                TimeEntry::Started(s) => TimeEntry::Concluded(s, now),
                _ => self,
            }),
    {
        match self {
            TimeEntry::Started(started) => TimeEntry::Concluded(started, now),
            _ => self,
        }
    }

    /// A running interval ends now; other entries stay as they are.
    pub fn conclude(self) -> (r: Self)
        ensures
            match self {
                TimeEntry::Started(s) => r matches TimeEntry::Concluded(s2, e) && s2 == s && timestamp_ok(e),
                _ => r == self,
            },
    {
        let now = now_millis();
        self.conclude_at(now)
    }

    /// Length of the entry, in milliseconds, when the clock reads `now`.
    pub fn duration_at(self, now: i64) -> (r: i128)
        requires
            self.wf(),
            timestamp_ok(now),
        ensures
            r == self.duration_spec(now),
            -0x8000_0000_0000_0000 <= r <= 0x8000_0000_0000_0000,
    {
        match self {
            TimeEntry::InstanteousDuration(d) => d as i128,
            TimeEntry::Concluded(s, e) => e as i128 - s as i128,
            TimeEntry::Started(s) => now as i128 - s as i128,
        }
    }

    /// Length of the entry, in milliseconds; a running one is measured to now.
    pub fn duration(self) -> (r: i128)
        requires
            self.wf(),
        ensures
            exists|now: i64| timestamp_ok(now) && r == self.duration_spec(now),
    {
        let now = now_millis();
        self.duration_at(now)
    }
}

/// The start of a running interval.
pub open spec fn start_of(e: TimeEntry) -> i64 {
    match e {
        TimeEntry::Started(s) => s,
        TimeEntry::Concluded(s, _) => s,
        TimeEntry::InstanteousDuration(_) => 0,
    }
}

/// Index of the last running interval of `log`, if any.
pub open spec fn last_started(log: TimeLogView) -> Option<int>
    decreases log.len(),
{
    if log.len() == 0 {
        None
    } else if log.last().0 is Started {
        Some(log.len() - 1)
    } else {
        last_started(log.drop_last())
    }
}

/// Some interval of `log` is running.
pub open spec fn recording(log: TimeLogView) -> bool {
    exists|i: int| 0 <= i < log.len() && (#[trigger] log[i]).0 is Started
}

/// The log after a toggle at `now`: the last running interval ends, or,
/// where none runs, one starts with `description`.
pub open spec fn toggled(log: TimeLogView, description: Option<Seq<char>>, now: i64) -> TimeLogView {
    match last_started(log) {
        Some(k) => log.update(k, (TimeEntry::Concluded(start_of(log[k].0), now), log[k].1)),
        None => log.push((TimeEntry::Started(now), description)),
    }
}

/// Sum of the durations of the entries of `log` when the clock reads `now`.
pub open spec fn log_total(log: TimeLogView, now: i64) -> int
    decreases log.len(),
{
    if log.len() == 0 {
        0
    } else {
        log_total(log.drop_last(), now) + log.last().0.duration_spec(now)
    }
}

proof fn lemma_last_started(log: TimeLogView)
    ensures
        match last_started(log) {
            Some(k) => 0 <= k < log.len() && log[k].0 is Started
                && forall|j: int| k < j < log.len() ==> !(#[trigger] log[j]).0.is_started(),
            None => !recording(log),
        },
    decreases log.len(),
{
    if log.len() > 0 && !(log.last().0 is Started) {
        let d = log.drop_last();
        lemma_last_started(d);
        match last_started(d) {
            Some(k) => {
                assert forall|j: int| k < j < log.len() implies !(#[trigger] log[j]).0.is_started() by {
                    if j < log.len() - 1 {
                        assert(log[j] == d[j]);
                    }
                }
            },
            None => {
                assert forall|i: int| 0 <= i < log.len() implies !((#[trigger] log[i]).0 is Started) by {
                    if i < log.len() - 1 {
                        assert(log[i] == d[i]);
                    }
                }
            },
        }
    }
}

impl TimeRecords {
    /// Whether an interval is running.
    pub fn is_recording(&self) -> (r: bool)
        ensures
            r == recording(self@),
    {
        let n = self.entries.len();
        let mut i: usize = 0;
        while i < n
            invariant
                n == self.entries@.len(),
                0 <= i <= n,
                forall|k: int| 0 <= k < i ==> !(#[trigger] self@[k]).0.is_started(),
            decreases n - i,
        {
            if let TimeEntry::Started(_) = self.entries[i].0 {
                assert(self@[i as int].0 is Started);
                return true;
            }
            i = i + 1;
        }
        false
    }

    /// Toggle recording at `now`: end the last running interval, or start
    /// one with `description` where none runs.
    pub fn handle_record_request_at(&mut self, description: Option<String>, now: i64)
        requires
            old(self).wf(),
            timestamp_ok(now),
        ensures
            final(self).wf(),
            final(self)@ == toggled(old(self)@, opt_text(description), now),
    {
        proof {
            lemma_last_started(self@);
        }
        let n = self.entries.len();
        let mut i: usize = n;
        while i > 0
            invariant
                n == self.entries@.len(),
                self@ == old(self)@,
                self.wf(),
                timestamp_ok(now),
                0 <= i <= n,
                forall|j: int| i <= j < n ==> !(#[trigger] self@[j]).0.is_started(),
            decreases i,
        {
            let k = i - 1;
            if let TimeEntry::Started(start) = self.entries[k].0 {
                let ghost log = self@;
                proof {
                    lemma_last_started(log);
                    match last_started(log) {
                        Some(m) => {
                            if m < k {
                                assert(log[k as int].0.is_started());
                            } else if m > k {
                                assert(!log[m].0.is_started());
                            }
                        },
                        None => {
                            assert(log[k as int].0 is Started);
                            assert(recording(log));
                        },
                    }
                }
                let d = copy_opt_text(&self.entries[k].1);
                self.entries.set(k, (TimeEntry::Concluded(start, now), d));
                proof {
                    let t = toggled(log, opt_text(description), now);
                    assert(self@ =~= t);
                    assert forall|j: int| 0 <= j < self@.len() implies (#[trigger] self@[j]).0.wf() by {
                        if j != k {
                            assert(self@[j] == log[j]);
                        } else {
                            assert(log[j].0.wf());
                        }
                    }
                }
                return;
            }
            i = k;
        }
        proof {
            lemma_last_started(self@);
            match last_started(self@) {
                Some(m) => {
                    assert(!self@[m].0.is_started());
                },
                None => {},
            }
        }
        let ghost log = self@;
        self.entries.push((TimeEntry::Started(now), description));
        proof {
            assert(self@ =~= log.push((TimeEntry::Started(now), opt_text(description))));
            assert forall|j: int| 0 <= j < self@.len() implies (#[trigger] self@[j]).0.wf() by {
                if j < log.len() {
                    assert(self@[j] == log[j]);
                }
            }
        }
    }

    /// Toggle recording now: end the last running interval, or start one
    /// with `description` where none runs.
    pub fn handle_record_request(&mut self, description: Option<String>)
        requires
            old(self).wf(),
        ensures
            final(self).wf(),
            exists|now: i64| timestamp_ok(now) && final(self)@ == toggled(old(self)@, opt_text(description), now),
    {
        let now = now_millis();
        self.handle_record_request_at(description, now);
    }

    /// Total logged time, in milliseconds, when the clock reads `now`.
    pub fn duration_at(&self, now: i64) -> (r: i128)
        requires
            self.wf(),
            timestamp_ok(now),
        ensures
            r == log_total(self@, now),
    {
        let n = self.entries.len();
        let mut sum: i128 = 0;
        let mut i: usize = 0;
        while i < n
            invariant
                n == self.entries@.len(),
                self.wf(),
                timestamp_ok(now),
                0 <= i <= n,
                sum == log_total(self@.take(i as int), now),
                -(i as int) * 0x8000_0000_0000_0000 <= sum <= (i as int) * 0x8000_0000_0000_0000,
            decreases n - i,
        {
            assert(self@[i as int].0.wf());
            let d = self.entries[i].0.duration_at(now);
            assert(self@.take(i as int + 1).drop_last() =~= self@.take(i as int));
            sum = sum + d;
            i = i + 1;
        }
        assert(self@.take(n as int) =~= self@);
        sum
    }

    /// Total logged time, in milliseconds; a running interval is measured
    /// to now.
    pub fn duration(&self) -> (r: i128)
        requires
            self.wf(),
        ensures
            exists|now: i64| timestamp_ok(now) && r == log_total(self@, now),
    {
        let now = now_millis();
        self.duration_at(now)
    }
}

/// Toggling twice on an empty log leaves one concluded interval from the
/// first toggle to the second, with nothing running; its total is the time
/// between the two, which a later clock reading does not change.
pub proof fn lemma_toggle_twice(description: Option<Seq<char>>, d2: Option<Seq<char>>, t1: i64, t2: i64, later: i64)
    ensures
        toggled(Seq::empty(), description, t1) == seq![(TimeEntry::Started(t1), description)],
        recording(toggled(Seq::empty(), description, t1)),
        toggled(toggled(Seq::empty(), description, t1), d2, t2) == seq![(TimeEntry::Concluded(t1, t2), description)],
        !recording(toggled(toggled(Seq::empty(), description, t1), d2, t2)),
        log_total(toggled(toggled(Seq::empty(), description, t1), d2, t2), later) == t2 - t1,
{
    let l1 = toggled(Seq::empty(), description, t1);
    assert(l1 =~= seq![(TimeEntry::Started(t1), description)]);
    assert(l1[0].0 is Started);
    assert(l1.drop_last() =~= Seq::<(TimeEntry, Option<Seq<char>>)>::empty());
    assert(last_started(l1) == Some(0int));
    let l2 = toggled(l1, d2, t2);
    assert(l2 =~= seq![(TimeEntry::Concluded(t1, t2), description)]);
    assert(!l2[0].0.is_started());
    assert(l2.drop_last() =~= Seq::<(TimeEntry, Option<Seq<char>>)>::empty());
    assert(l2.last() == (TimeEntry::Concluded(t1, t2), description));
    assert(log_total(l2.drop_last(), later) == 0);
    assert(log_total(l2, later) == log_total(l2.drop_last(), later) + l2.last().0.duration_spec(later));
}

/// The first position `k` or later whose id reaches `x`.
pub open spec fn first_reacher(g: TaskGraph, c: Seq<KanbanId>, x: KanbanId, k: int) -> Option<int>
    decreases c.len() - k,
{
    if k < 0 || k >= c.len() {
        None
    } else if reaches(g, c[k], x) {
        Some(k)
    } else {
        first_reacher(g, c, x, k + 1)
    }
}

/// The entry of `c` that task `x` is counted in: its own where `x` is one
/// of `c`, else the first entry that reaches it.
pub open spec fn owner(g: TaskGraph, c: Seq<KanbanId>, x: KanbanId) -> Option<int> {
    if c.contains(x) {
        Some(choose|k: int| 0 <= k < c.len() && c[k] == x)
    } else {
        first_reacher(g, c, x, 0)
    }
}

/// Time logged at `now` on the tasks of `s` counted in entry `k`.
pub open spec fn owned_total(s: Seq<TaskView>, g: TaskGraph, c: Seq<KanbanId>, k: int, now: i64) -> int
    decreases s.len(),
{
    if s.len() == 0 {
        0
    } else {
        owned_total(s.drop_last(), g, c, k, now) + if owner(g, c, s.last().id) == Some(k) {
            log_total(s.last().time_records, now)
        } else {
            0
        }
    }
}

/// Time logged at `now` on the tasks of `s` that some id of `c` reaches.
pub open spec fn reachable_total(s: Seq<TaskView>, g: TaskGraph, c: Seq<KanbanId>, now: i64) -> int
    decreases s.len(),
{
    if s.len() == 0 {
        0
    } else {
        reachable_total(s.drop_last(), g, c, now) + if reached_from(g, c, s.last().id) {
            log_total(s.last().time_records, now)
        } else {
            0
        }
    }
}

/// The entries `0..m` summed.
pub open spec fn entries_total(s: Seq<TaskView>, g: TaskGraph, c: Seq<KanbanId>, m: int, now: i64) -> int
    decreases m,
{
    if m <= 0 {
        0
    } else {
        entries_total(s, g, c, m - 1, now) + owned_total(s, g, c, m - 1, now)
    }
}

/// How many time entries the tasks of `s` hold together.
pub open spec fn entry_count(s: Seq<TaskView>) -> int
    decreases s.len(),
{
    if s.len() == 0 {
        0
    } else {
        entry_count(s.drop_last()) + s.last().time_records.len()
    }
}

proof fn lemma_first_reacher(g: TaskGraph, c: Seq<KanbanId>, x: KanbanId, k: int)
    requires
        0 <= k,
    ensures
        first_reacher(g, c, x, k) is Some <==> exists|j: int| k <= j < c.len() && reaches(g, #[trigger] c[j], x),
        first_reacher(g, c, x, k) matches Some(j) ==> k <= j < c.len(),
    decreases c.len() - k,
{
    if k < c.len() {
        lemma_first_reacher(g, c, x, k + 1);
    }
}

proof fn lemma_first_reacher_at(g: TaskGraph, c: Seq<KanbanId>, x: KanbanId, j: int, k: int)
    requires
        0 <= j <= k < c.len(),
        reaches(g, c[k], x),
        forall|i: int| 0 <= i < k ==> !reaches(g, #[trigger] c[i], x),
    ensures
        first_reacher(g, c, x, j) == Some(k),
    decreases k - j,
{
    if j < k {
        lemma_first_reacher_at(g, c, x, j + 1, k);
    }
}

/// A task below two or more dependencies, and none of them itself, is
/// counted under the first dependency that reaches it and under no other.
pub proof fn lemma_shared_task_owner(g: TaskGraph, c: Seq<KanbanId>, x: KanbanId, k: int)
    requires
        0 <= k < c.len(),
        !c.contains(x),
        reaches(g, c[k], x),
        forall|i: int| 0 <= i < k ==> !reaches(g, #[trigger] c[i], x),
    ensures
        owner(g, c, x) == Some(k),
        forall|j: int| j != k ==> owner(g, c, x) != Some(j),
{
    lemma_first_reacher_at(g, c, x, 0, k);
}

proof fn lemma_owner(g: TaskGraph, c: Seq<KanbanId>, x: KanbanId)
    ensures
        owner(g, c, x) is Some <==> reached_from(g, c, x),
        owner(g, c, x) matches Some(k) ==> 0 <= k < c.len(),
{
    lemma_first_reacher(g, c, x, 0);
    if c.contains(x) {
        lemma_reaches_refl(g, x);
        let k = choose|k: int| 0 <= k < c.len() && c[k] == x;
    } else {
        if reached_from(g, c, x) {
            let s0 = choose|s0: KanbanId| c.contains(s0) && #[trigger] reaches(g, s0, x);
            let j = choose|j: int| 0 <= j < c.len() && c[j] == s0;
        }
        if first_reacher(g, c, x, 0) is Some {
            let j = choose|j: int| 0 <= j < c.len() && reaches(g, #[trigger] c[j], x);
            assert(c.contains(c[j]));
        }
    }
}

proof fn lemma_entries_one(s: Seq<TaskView>, g: TaskGraph, c: Seq<KanbanId>, m: int, now: i64)
    requires
        s.len() > 0,
        0 <= m,
    ensures
        entries_total(s, g, c, m, now) == entries_total(s.drop_last(), g, c, m, now) + match owner(g, c, s.last().id) {
            Some(k) => if k < m {
                log_total(s.last().time_records, now)
            } else {
                0
            },
            None => 0,
        },
    decreases m,
{
    lemma_owner(g, c, s.last().id);
    if m > 0 {
        lemma_entries_one(s, g, c, m - 1, now);
        assert(entries_total(s.drop_last(), g, c, m, now) == entries_total(s.drop_last(), g, c, m - 1, now) + owned_total(s.drop_last(), g, c, m - 1, now));
        assert(entries_total(s, g, c, m, now) == entries_total(s, g, c, m - 1, now) + owned_total(s, g, c, m - 1, now));
        assert(owned_total(s, g, c, m - 1, now) == owned_total(s.drop_last(), g, c, m - 1, now) + if owner(g, c, s.last().id) == Some(m - 1) {
            log_total(s.last().time_records, now)
        } else {
            0
        });
    }
}

/// Each task that the dependencies reach is counted in one entry only: the
/// entries add up to the time logged on those tasks, each taken once, even
/// where two dependencies share a task below them.
pub proof fn lemma_subtree_counts_once(s: Seq<TaskView>, g: TaskGraph, c: Seq<KanbanId>, now: i64)
    ensures
        entries_total(s, g, c, c.len() as int, now) == reachable_total(s, g, c, now),
    decreases s.len(),
{
    if s.len() == 0 {
        lemma_entries_zero(s, g, c, c.len() as int, now);
    } else {
        lemma_subtree_counts_once(s.drop_last(), g, c, now);
        lemma_entries_one(s, g, c, c.len() as int, now);
        lemma_owner(g, c, s.last().id);
    }
}

proof fn lemma_entries_zero(s: Seq<TaskView>, g: TaskGraph, c: Seq<KanbanId>, m: int, now: i64)
    requires
        s.len() == 0,
    ensures
        entries_total(s, g, c, m, now) == 0,
    decreases m,
{
    if m > 0 {
        lemma_entries_zero(s, g, c, m - 1, now);
    }
}

proof fn lemma_log_total_bound(log: TimeLogView, now: i64)
    requires
        log_wf(log),
        timestamp_ok(now),
    ensures
        -(log.len() as int) * 0x8000_0000_0000_0000 <= log_total(log, now) <= (log.len() as int) * 0x8000_0000_0000_0000,
    decreases log.len(),
{
    if log.len() > 0 {
        let d = log.drop_last();
        assert forall|i: int| 0 <= i < d.len() implies (#[trigger] d[i]).0.wf() by {
            assert(d[i] == log[i]);
        }
        assert(log[log.len() - 1].0.wf());
        lemma_log_total_bound(d, now);
    }
}

/// The time below each dependency of `item` when the clock reads `now`:
/// for each dependency, in order, its own time and that of every task it
/// reaches that neither another dependency nor an earlier entry counts.
pub fn collect_child_durations_at(document: &KanbanDocument, item: &KanbanItem, now: i64) -> (r: Vec<(KanbanId, i128)>)
    requires
        document.wf(),
        item@.wf(),
        timestamp_ok(now),
        entry_count(document.task_seq()) <= usize::MAX,
    ensures
        r@.len() == item.child_tasks@.len(),
        forall|k: int| 0 <= k < r@.len() ==> (#[trigger] r@[k]).0 == item.child_tasks@[k]
            && r@[k].1 == owned_total(document.task_seq(), document.graph(), item.child_tasks@, k, now),
{
    let c = &item.child_tasks;
    let ghost cs = c@;
    let ghost s = document.task_seq();
    let ghost g = document.graph();
    let m = c.len();
    let mut reach: Vec<Vec<KanbanId>> = Vec::new();
    let mut k: usize = 0;
    while k < m
        invariant
            document.wf(),
            m == cs.len(),
            cs == c@,
            g == document.graph(),
            0 <= k <= m,
            reach@.len() == k,
            forall|a: int, y: KanbanId| 0 <= a < k ==> (#[trigger] reach@[a]@.contains(y) <==> reaches(g, cs[a], y)),
        decreases m - k,
    {
        reach.push(document.reachable_from(c[k]));
        k = k + 1;
    }
    let tasks = document.get_tasks();
    let n = tasks.len();
    let mut sums: Vec<i128> = Vec::new();
    let mut k: usize = 0;
    while k < m
        invariant
            0 <= k <= m,
            sums@.len() == k,
            forall|a: int| 0 <= a < k ==> sums@[a] == 0,
        decreases m - k,
    {
        sums.push(0);
        k = k + 1;
    }
    let ghost bound: int = 0;
    proof {
        assert(s.take(0) =~= Seq::<TaskView>::empty());
        lemma_entry_count_nonneg(s);
    }
    let mut j: usize = 0;
    while j < n
        invariant
            document.wf(),
            item@.wf(),
            timestamp_ok(now),
            entry_count(s) <= usize::MAX,
            n == tasks@.len(),
            s == document.task_seq(),
            g == document.graph(),
            tasks@.map_values(|t: KanbanItem| t@) == s,
            m == cs.len(),
            cs == c@,
            cs == item.child_tasks@,
            reach@.len() == m,
            forall|a: int, y: KanbanId| 0 <= a < m ==> (#[trigger] reach@[a]@.contains(y) <==> reaches(g, cs[a], y)),
            0 <= j <= n,
            sums@.len() == m,
            bound == entry_count(s.take(j as int)),
            0 <= bound <= entry_count(s),
            forall|a: int| 0 <= a < m ==> #[trigger] sums@[a] == owned_total(s.take(j as int), g, cs, a, now),
            forall|a: int| 0 <= a < m ==> -bound * 0x8000_0000_0000_0000 <= #[trigger] sums@[a] <= bound * 0x8000_0000_0000_0000,
        decreases n - j,
    {
        let x = tasks[j].id;
        let ghost t = s[j as int];
        assert(t == tasks@[j as int]@);
        let mut own: Option<usize> = None;
        let mut a: usize = 0;
        while a < m && own.is_none()
            invariant
                m == cs.len(),
                cs == c@,
                0 <= a <= m,
                forall|b: int| 0 <= b < a ==> cs[b] != x,
                own matches Some(b) ==> b == a && a < m && cs[a as int] == x,
            decreases m - a, if own is None { 1int } else { 0int },
        {
            if c[a] == x {
                own = Some(a);
            } else {
                a = a + 1;
            }
        }
        proof {
            if own is None {
                assert(!cs.contains(x)) by {
                    if cs.contains(x) {
                        let b = choose|b: int| 0 <= b < cs.len() && cs[b] == x;
                    }
                }
            }
        }
        if own.is_none() {
            let mut a: usize = 0;
            while a < m && own.is_none()
                invariant
                    m == cs.len(),
                    reach@.len() == m,
                    forall|b: int, y: KanbanId| 0 <= b < m ==> (#[trigger] reach@[b]@.contains(y) <==> reaches(g, cs[b], y)),
                    0 <= a <= m,
                    first_reacher(g, cs, x, 0) == first_reacher(g, cs, x, a as int),
                    own matches Some(b) ==> b == a && a < m && reaches(g, cs[a as int], x),
                decreases m - a, if own is None { 1int } else { 0int },
            {
                if crate::item::contains_id(&reach[a], x) {
                    own = Some(a);
                } else {
                    a = a + 1;
                }
            }
        }
        proof {
            lemma_owner(g, cs, x);
            match own {
                Some(a) => {
                    if cs.contains(x) {
                        let k = choose|k: int| 0 <= k < cs.len() && cs[k] == x;
                        if k != a {
                            if k < a {
                                assert(cs[k] < cs[a as int]);
                            } else {
                                assert(cs[a as int] < cs[k]);
                            }
                        }
                    }
                },
                None => {},
            }
        }
        assert(own matches Some(a) ==> owner(g, cs, x) == Some(a as int));
        assert(own is None ==> owner(g, cs, x) is None);
        proof {
            assert(s.take(j as int + 1).drop_last() =~= s.take(j as int));
            assert(s.take(j as int + 1).last() == t);
            lemma_entry_count_prefix(s, j as int);
            lemma_log_total_bound(t.time_records, now);
            assert(t.wf());
        }
        let ghost sums0 = sums@;
        match own {
            Some(a) => {
                let total = tasks[j].time_records.duration_at(now);
                proof {
                    assert(entry_count(s.take(j as int + 1)) == bound + t.time_records.len());
                    assert(entry_count(s) <= 0xffff_ffff_ffff_ffff);
                    assert(bound + t.time_records.len() <= 0xffff_ffff_ffff_ffff);
                    assert((bound + t.time_records.len()) * 0x8000_0000_0000_0000 <= 0xffff_ffff_ffff_ffff * 0x8000_0000_0000_0000);
                    assert(-bound * 0x8000_0000_0000_0000 <= sums0[a as int] <= bound * 0x8000_0000_0000_0000);
                }
                let v = sums[a] + total;
                sums.set(a, v);
            },
            None => {},
        }
        proof {
            bound = bound + t.time_records.len();
            assert forall|b: int| 0 <= b < m implies #[trigger] sums@[b] == owned_total(s.take(j as int + 1), g, cs, b, now) by {
                assert(owned_total(s.take(j as int + 1), g, cs, b, now) == owned_total(s.take(j as int), g, cs, b, now)
                    + if owner(g, cs, x) == Some(b) { log_total(t.time_records, now) } else { 0 });
            }
            assert forall|b: int| 0 <= b < m implies -bound * 0x8000_0000_0000_0000 <= #[trigger] sums@[b] <= bound * 0x8000_0000_0000_0000 by {
                assert(-(bound - t.time_records.len()) * 0x8000_0000_0000_0000 <= sums0[b] <= (bound - t.time_records.len()) * 0x8000_0000_0000_0000);
            }
        }
        j = j + 1;
    }
    assert(s.take(n as int) =~= s);
    let mut r: Vec<(KanbanId, i128)> = Vec::new();
    let mut k: usize = 0;
    while k < m
        invariant
            m == cs.len(),
            cs == c@,
            sums@.len() == m,
            forall|a: int| 0 <= a < m ==> #[trigger] sums@[a] == owned_total(s, g, cs, a, now),
            0 <= k <= m,
            r@.len() == k,
            forall|a: int| 0 <= a < k ==> (#[trigger] r@[a]).0 == cs[a] && r@[a].1 == owned_total(s, g, cs, a, now),
        decreases m - k,
    {
        r.push((c[k], sums[k]));
        k = k + 1;
    }
    r
}

proof fn lemma_entry_count_nonneg(s: Seq<TaskView>)
    ensures
        entry_count(s) >= 0,
    decreases s.len(),
{
    if s.len() > 0 {
        lemma_entry_count_nonneg(s.drop_last());
    }
}

proof fn lemma_entry_count_prefix(s: Seq<TaskView>, j: int)
    requires
        0 <= j < s.len(),
    ensures
        entry_count(s.take(j + 1)) == entry_count(s.take(j)) + s[j].time_records.len(),
        entry_count(s.take(j + 1)) <= entry_count(s),
    decreases s.len() - j,
{
    assert(s.take(j + 1).drop_last() =~= s.take(j));
    if j + 1 < s.len() {
        lemma_entry_count_prefix(s, j + 1);
    } else {
        assert(s.take(j + 1) =~= s);
    }
}

/// How many time entries the tasks of `document` hold together; `None`
/// where that exceeds `usize::MAX`.
pub fn time_entry_count(document: &KanbanDocument) -> (r: Option<usize>)
    ensures
        match r {
            Some(n) => n == entry_count(document.task_seq()),
            None => entry_count(document.task_seq()) > usize::MAX,
        },
{
    let tasks = document.get_tasks();
    let ghost s = document.task_seq();
    let n = tasks.len();
    let mut total: usize = 0;
    let mut i: usize = 0;
    while i < n
        invariant
            n == tasks@.len(),
            s == document.task_seq(),
            tasks@.map_values(|t: KanbanItem| t@) == s,
            0 <= i <= n,
            total == entry_count(s.take(i as int)),
        decreases n - i,
    {
        proof {
            assert(s.take(i as int + 1).drop_last() =~= s.take(i as int));
            assert(tasks@[i as int]@ == s[i as int]);
        }
        let k = tasks[i].time_records.entries.len();
        if k > usize::MAX - total {
            proof {
                lemma_entry_count_prefix(s, i as int);
            }
            return None;
        }
        total = total + k;
        i = i + 1;
    }
    assert(s.take(n as int) =~= s);
    Some(total)
}

/// The time below each dependency of `item`, measured now; see
/// `collect_child_durations_at`.
pub fn collect_child_durations(document: &KanbanDocument, item: &KanbanItem) -> (r: Vec<(KanbanId, i128)>)
    requires
        document.wf(),
        item@.wf(),
        entry_count(document.task_seq()) <= usize::MAX,
    ensures
        exists|now: i64| timestamp_ok(now) && r@.len() == item.child_tasks@.len()
            && forall|k: int| 0 <= k < r@.len() ==> (#[trigger] r@[k]).0 == item.child_tasks@[k]
                && r@[k].1 == owned_total(document.task_seq(), document.graph(), item.child_tasks@, k, now),
{
    let now = now_millis();
    collect_child_durations_at(document, item, now)
}

/// Division of `a` by a positive `b`, rounded toward zero.
pub open spec fn div_toward_zero(a: int, b: int) -> int {
    if a >= 0 {
        a / b
    } else {
        -((-a) / b)
    }
}

const MS_PER_MINUTE: i128 = 60_000;
const MS_PER_HOUR: i128 = 3_600_000;
const MS_PER_DAY: i128 = 86_400_000;

/// How long ago a task was completed, in the units it is told in.
#[derive(Clone, Copy, Debug, PartialEq, Eq, Structural)]
pub enum CompletionAge {
    /// More than a week ago: told as the date of this timestamp.
    On(i64),
    /// Whole days, and hours beyond them.
    DaysHours(i128, i128),
    /// Whole hours, and minutes beyond them.
    HoursMinutes(i128, i128),
    /// Whole minutes.
    Minutes(i128),
}

/// The age of a completion at `completed` when the clock reads `now`.
pub open spec fn age_of(completed: i64, now: i64) -> CompletionAge {
    let d = now - completed;
    let days = div_toward_zero(d, 86_400_000);
    let hours = div_toward_zero(d, 3_600_000);
    let minutes = div_toward_zero(d, 60_000);
    if days > 7 {
        CompletionAge::On(completed)
    } else if days >= 1 {
        CompletionAge::DaysHours(days as i128, (hours % 24) as i128)
    } else if hours >= 1 {
        CompletionAge::HoursMinutes(hours as i128, (minutes % 60) as i128)
    } else {
        CompletionAge::Minutes(minutes as i128)
    }
}

fn div_zero(a: i128, b: i128) -> (r: i128)
    requires
        b > 0,
        -0x1_0000_0000_0000_0000 <= a <= 0x1_0000_0000_0000_0000,
    ensures
        r == div_toward_zero(a as int, b as int),
{
    if a >= 0 {
        a / b
    } else {
        -((-a) / b)
    }
}

impl KanbanItem {
    /// How long before `now` the task was completed; `None` where it is not.
    pub fn completion_age_at(&self, now: i64) -> (r: Option<CompletionAge>)
        ensures
            match self.completed {
                Some(c) => r == Some(age_of(c, now)),
                None => r is None,
            },
    {
        match self.completed {
            Some(c) => {
                let d = now as i128 - c as i128;
                let days = div_zero(d, MS_PER_DAY);
                let hours = div_zero(d, MS_PER_HOUR);
                let minutes = div_zero(d, MS_PER_MINUTE);
                if days > 7 {
                    Some(CompletionAge::On(c))
                } else if days >= 1 {
                    Some(CompletionAge::DaysHours(days, hours % 24))
                } else if hours >= 1 {
                    Some(CompletionAge::HoursMinutes(hours, minutes % 60))
                } else {
                    Some(CompletionAge::Minutes(minutes))
                }
            },
            None => None,
        }
    }

    /// How long ago the task was completed; `None` where it is not.
    pub fn completion_age(&self) -> (r: Option<CompletionAge>)
        ensures
            match self.completed {
                Some(c) => exists|now: i64| timestamp_ok(now) && r == Some(age_of(c, now)),
                None => r is None,
            },
    {
        let now = now_millis();
        self.completion_age_at(now)
    }
}

} // verus!
