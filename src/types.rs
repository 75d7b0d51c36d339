use std::collections::HashMap;
use vstd::arithmetic::power2::{lemma2_to64, lemma_pow2_strictly_increases, lemma_pow2_unfold, pow2};
use vstd::multiset::Multiset;
use vstd::prelude::*;
use vstd::string::StrSliceExecFns;

use crate::priority_queue::{top, PriorityQueue};

verus! {

/// The number of failed attempts after which a task is no longer retried.
pub const MAX_TASK_RETRY: u32 = 3;

/// What can go wrong in the scheduler.
#[derive(PartialEq, Eq, Structural, Clone, Copy, Debug)]
pub enum QueueError {
    /// A priority label other than `low`, `medium` or `high`, in any case.
    InvalidPriority,
    /// The ordering structure asked for a key holds none.
    QueueEmpty,
    /// A key's id has no record in the registry.
    NotFound,
    /// The task has already failed the maximum number of times.
    RetryLimitExceeded,
    /// A worker pool was asked for with no workers.
    InvalidWorkerCount,
}

/// The kinds of work a task can carry; each kind has its own handler.
#[derive(PartialEq, Eq, Structural, Clone, Copy, Debug)]
pub enum Operations {
    OpenFile,
    WriteToFile,
    GetBTCPrice,
    GetETHPrice,
}

/// A dispatch key: a priority class carrying the task's id as sequence number.
/// Classes order as `Low < Medium < High`; within a class the larger sequence
/// number comes first out of a max-ordering structure.
#[derive(PartialEq, Eq, Structural, Clone, Copy, Debug, PartialOrd, Ord)]
pub enum Priority {
    Low(u32),
    Medium(u32),
    High(u32),
}

impl Priority {
    /// The class of the key as a number: `Low` 0, `Medium` 1, `High` 2.
    pub open spec fn rank(self) -> int {
        match self {
            Priority::Low(_) => 0,
            Priority::Medium(_) => 1,
            Priority::High(_) => 2,
        }
    }

    /// The sequence number carried by the key, which is the task's id.
    pub open spec fn seq_no(self) -> u32 {
        match self {
            Priority::Low(n) => n,
            Priority::Medium(n) => n,
            Priority::High(n) => n,
        }
    }

    /// `self` orders no higher than `other`: lower class, or same class and
    /// a sequence number no larger.
    pub open spec fn at_most(self, other: Priority) -> bool {
        self.rank() < other.rank() || (self.rank() == other.rank() && self.seq_no()
            <= other.seq_no())
    }

    /// `self` orders strictly below `other`.
    pub open spec fn lower_than(self, other: Priority) -> bool {
        self.rank() < other.rank() || (self.rank() == other.rank() && self.seq_no()
            < other.seq_no())
    }

    /// The id of the task this key stands for.
    pub fn task_id(&self) -> (r: u32)
        ensures
            r == self.seq_no(),
    {
        match self {
            Priority::Low(n) => *n,
            Priority::Medium(n) => *n,
            Priority::High(n) => *n,
        }
    }

    fn class_rank(&self) -> (r: u8)
        ensures
            r == self.rank(),
    {
        match self {
            Priority::Low(_) => 0,
            Priority::Medium(_) => 1,
            Priority::High(_) => 2,
        }
    }

    /// Whether `self` orders strictly below `other`.
    pub fn is_lower_than(&self, other: &Priority) -> (r: bool)
        ensures
            r == self.lower_than(*other),
    {
        let a = self.class_rank();
        let b = other.class_rank();
        a < b || (a == b && self.task_id() < other.task_id())
    }
}

/// The key that a lower-case priority label gives with sequence number
/// `counter`, or `InvalidPriority`.
pub open spec fn label_priority(counter: u32, label: Seq<char>) -> Result<Priority, QueueError> {
    if label == seq!['l', 'o', 'w'] {
        Ok(Priority::Low(counter))
    } else if label == seq!['m', 'e', 'd', 'i', 'u', 'm'] {
        Ok(Priority::Medium(counter))
    } else if label == seq!['h', 'i', 'g', 'h'] {
        Ok(Priority::High(counter))
    } else {
        Err(QueueError::InvalidPriority)
    }
}

/// What `str::to_lowercase` gives for a string.
pub uninterp spec fn lower_of(s: Seq<char>) -> Seq<char>;

/// Relies on `str::to_lowercase` to fold a priority label to lower case; the
/// result depends on the characters alone.
#[verifier::external_body]
fn lowercase(s: &str) -> (r: String)
    ensures
        r@ == lower_of(s@),
{
    s.to_lowercase()
}

/// Whether two strings hold the same characters.
fn same_text(a: &str, b: &str) -> (r: bool)
    ensures
        r == (a@ == b@),
{
    let n = a.unicode_len();
    if n != b.unicode_len() {
        return false;
    }
    let mut i: usize = 0;
    while i < n
        invariant
            n == a@.len(),
            n == b@.len(),
            i <= n,
            forall|k: int| 0 <= k < i ==> a@[k] == b@[k],
        decreases n - i,
    {
        if a.get_char(i) != b.get_char(i) {
            return false;
        }
        i = i + 1;
    }
    assert(a@ =~= b@);
    true
}

impl Priority {
    /// The key for an already lower-case label (`low`, `medium` or `high`)
    /// carrying `counter`.
    pub fn from_label(counter: u32, label: &str) -> (r: Result<Priority, QueueError>)
        ensures
            r == label_priority(counter, label@),
    {
        proof {
            reveal_strlit("low");
            reveal_strlit("medium");
            reveal_strlit("high");
            assert("low"@ =~= seq!['l', 'o', 'w']);
            assert("medium"@ =~= seq!['m', 'e', 'd', 'i', 'u', 'm']);
            assert("high"@ =~= seq!['h', 'i', 'g', 'h']);
        }
        if same_text(label, "low") {
            Ok(Priority::Low(counter))
        } else if same_text(label, "medium") {
            Ok(Priority::Medium(counter))
        } else if same_text(label, "high") {
            Ok(Priority::High(counter))
        } else {
            Err(QueueError::InvalidPriority)
        }
    }
}

impl Operations {
    /// The key for a priority label in any case, carrying `counter`.
    pub fn sort_counter(counter: u32, shortcut: &str) -> (r: Result<Priority, QueueError>)
        ensures
            r == label_priority(counter, lower_of(shortcut@)),
    {
        let folded = lowercase(shortcut);
        Priority::from_label(counter, folded.as_str())
    }
}

/// Two keys with the same class and sequence number are the same key.
pub proof fn lemma_priority_ext(a: Priority, b: Priority)
    requires
        a.rank() == b.rank(),
        a.seq_no() == b.seq_no(),
    ensures
        a == b,
{
}

/// The order on keys is total, antisymmetric and transitive.
pub proof fn lemma_order_facts()
    ensures
        forall|a: Priority, b: Priority| #[trigger] a.at_most(b) || #[trigger] b.at_most(a),
        forall|a: Priority, b: Priority| a.at_most(b) && b.at_most(a) ==> a == b,
        forall|a: Priority, b: Priority, c: Priority|
            #[trigger] a.at_most(b) && #[trigger] b.at_most(c) ==> a.at_most(c),
        forall|a: Priority, b: Priority| #[trigger] a.lower_than(b) <==> !b.at_most(a),
{
    assert forall|a: Priority, b: Priority| a.at_most(b) && b.at_most(a) implies a == b by {
        lemma_priority_ext(a, b);
    }
}

/// The delay in seconds before retrying a task that has failed `retry` times.
pub open spec fn backoff(retry: nat) -> nat {
    pow2(retry)
}

/// Computes `2^retry`.
fn backoff_secs(retry: u32) -> (r: u64)
    requires
        retry < 64,
    ensures
        r == backoff(retry as nat),
{
    let mut r: u64 = 1;
    let mut i: u32 = 0;
    proof {
        lemma2_to64();
    }
    while i < retry
        invariant
            i <= retry < 64,
            r == pow2(i as nat),
        decreases retry - i,
    {
        proof {
            lemma_pow2_unfold((i + 1) as nat);
            lemma_pow2_strictly_increases((i + 1) as nat, 64);
            lemma2_to64();
        }
        r = r * 2;
        i = i + 1;
    }
    r
}

/// The record of one task.
#[derive(PartialEq, Eq, Structural, Clone, Copy, Debug)]
pub struct Tasks {
    pub task_type: Operations,
    /// The key under which the task was last queued.
    pub priority_level: Priority,
    /// How many attempts have failed.
    pub retry_counter: u32,
    /// Seconds to wait before the next retry.
    pub delay_secs: u64,
}

impl Tasks {
    /// A record that has not failed yet.
    pub open spec fn fresh(task_type: Operations, priority_level: Priority) -> Tasks {
        Tasks { task_type, priority_level, retry_counter: 0, delay_secs: 0 }
    }

    /// The record after one more failed attempt: the counter goes up by one
    /// and the delay becomes `2^counter`.
    pub open spec fn after_failure(self) -> Tasks {
        Tasks {
            task_type: self.task_type,
            priority_level: self.priority_level,
            retry_counter: (self.retry_counter + 1) as u32,
            delay_secs: backoff((self.retry_counter + 1) as nat) as u64,
        }
    }

    /// A record for a task that has not run yet.
    pub fn new(task_type: Operations, priority_level: Priority) -> (r: Tasks)
        ensures
            r == Tasks::fresh(task_type, priority_level),
    {
        Tasks { task_type, priority_level, retry_counter: 0, delay_secs: 0 }
    }
}

/// One attempt handed out by the scheduler: the key taken from an ordering
/// structure and the kind of work whose handler is to run.
#[derive(PartialEq, Eq, Structural, Clone, Copy, Debug)]
pub struct Attempt {
    pub key: Priority,
    pub task_type: Operations,
}

/// What a worker does next.
#[derive(PartialEq, Eq, Structural, Clone, Copy, Debug)]
pub enum WorkerAction {
    /// Take a task from the ready structure.
    Execute,
    /// Wait this many seconds, then take a task from the failed structure.
    Retry { delay_secs: u64 },
    /// Nothing to do: pause briefly.
    Idle,
}

/// The scheduler: the id counter, the registry of task records, and the
/// ready and failed ordering structures.
pub struct TaskQueue {
    /// The id the next task will get.
    pub task_counter: u32,
    /// Keys of tasks awaiting their first attempt.
    pub priority_manager: PriorityQueue,
    /// Every task ever inserted, by id.
    pub task_manager: HashMap<u32, Tasks>,
    /// Keys of tasks awaiting a retry.
    pub failed_task_manager: PriorityQueue,
}

impl TaskQueue {
    /// The registry holds a record for `p`'s id whose key is `p`.
    pub open spec fn keyed(self, p: Priority) -> bool {
        self.task_manager@.contains_key(p.seq_no()) && self.task_manager@[p.seq_no()].priority_level
            == p
    }

    /// Ids run from 1 below the counter, each record carries its own id and
    /// at most the maximum of failures, and every key held in either
    /// ordering structure has its record.
    pub open spec fn wf(self) -> bool {
        &&& 1 <= self.task_counter
        &&& forall|id: u32| #[trigger]
            self.task_manager@.contains_key(id) ==> {
                &&& 1 <= id < self.task_counter
                &&& self.task_manager@[id].priority_level.seq_no() == id
                &&& self.task_manager@[id].retry_counter <= MAX_TASK_RETRY
            }
        &&& forall|p: Priority| #[trigger] self.priority_manager@.count(p) > 0 ==> self.keyed(p)
        &&& forall|p: Priority| #[trigger] self.failed_task_manager@.count(p) > 0 ==> self.keyed(
            p,
        )
    }

    /// The attempt for key `p`, or `NotFound` when its id has no record.
    pub open spec fn resolve(self, p: Priority) -> Result<Attempt, QueueError> {
        if self.task_manager@.contains_key(p.seq_no()) {
            Ok(Attempt { key: p, task_type: self.task_manager@[p.seq_no()].task_type })
        } else {
            Err(QueueError::NotFound)
        }
    }

    /// The retry attempt for key `p`: `NotFound` without a record,
    /// `RetryLimitExceeded` once the record has failed the maximum of times.
    pub open spec fn resolve_retry(self, p: Priority) -> Result<Attempt, QueueError> {
        if !self.task_manager@.contains_key(p.seq_no()) {
            Err(QueueError::NotFound)
        } else if self.task_manager@[p.seq_no()].retry_counter >= MAX_TASK_RETRY {
            Err(QueueError::RetryLimitExceeded)
        } else {
            Ok(Attempt { key: p, task_type: self.task_manager@[p.seq_no()].task_type })
        }
    }

    /// The recorded delay of the task behind key `p`, or 0 without a record.
    pub open spec fn pending_delay(self, p: Priority) -> u64 {
        if self.task_manager@.contains_key(p.seq_no()) {
            self.task_manager@[p.seq_no()].delay_secs
        } else {
            0
        }
    }

    /// How `complete_task` moves from `before` to `after` with result `r`.
    pub open spec fn completion(
        before: TaskQueue,
        after: TaskQueue,
        attempt: Attempt,
        succeeded: bool,
        r: Result<(), QueueError>,
    ) -> bool {
        let id = attempt.key.seq_no();
        if !before.task_manager@.contains_key(id) {
            r == Err::<(), QueueError>(QueueError::NotFound) && after == before
        } else if succeeded {
            r == Ok::<(), QueueError>(()) && after == before
        } else if before.task_manager@[id].retry_counter >= MAX_TASK_RETRY {
            r == Err::<(), QueueError>(QueueError::RetryLimitExceeded) && after == before
        } else {
            let rec = before.task_manager@[id];
            &&& r == Ok::<(), QueueError>(())
            &&& after.task_manager@ == before.task_manager@.insert(id, rec.after_failure())
            &&& after.failed_task_manager@ == before.failed_task_manager@.insert(
                rec.priority_level,
            )
            &&& after.task_counter == before.task_counter
            &&& after.priority_manager == before.priority_manager
        }
    }

    /// An empty scheduler whose first task gets id 1.
    pub fn new() -> (r: TaskQueue)
        ensures
            r.task_counter == 1,
            r.priority_manager@ == Multiset::<Priority>::empty(),
            r.task_manager@ == Map::<u32, Tasks>::empty(),
            r.failed_task_manager@ == Multiset::<Priority>::empty(),
            r.wf(),
    {
        TaskQueue {
            task_counter: 1,
            priority_manager: PriorityQueue::new(),
            task_manager: HashMap::new(),
            failed_task_manager: PriorityQueue::new(),
        }
    }

    /// Creates a task: it gets the next id, its record goes into the
    /// registry and its key into the ready structure. An unknown label is
    /// rejected before anything changes.
    pub fn insert_task(&mut self, task: Operations, priority_level: &str) -> (r: Result<
        u32,
        QueueError,
    >)
        requires
            old(self).task_counter < u32::MAX,
        ensures
            match label_priority(old(self).task_counter, lower_of(priority_level@)) {
                Ok(p) => {
                    &&& r == Ok::<u32, QueueError>(old(self).task_counter)
                    &&& final(self).task_counter == old(self).task_counter + 1
                    &&& final(self).task_manager@ == old(self).task_manager@.insert(
                        old(self).task_counter,
                        Tasks::fresh(task, p),
                    )
                    &&& final(self).priority_manager@ == old(self).priority_manager@.insert(p)
                    &&& final(self).failed_task_manager@ == old(self).failed_task_manager@
                },
                Err(e) => r == Err::<u32, QueueError>(e) && *final(self) == *old(self),
            },
            old(self).wf() ==> final(self).wf(),
    {
        let id = self.task_counter;
        let p = match Operations::sort_counter(id, priority_level) {
            Ok(p) => p,
            Err(e) => {
                return Err(e);
            },
        };
        let ghost before = *self;
        self.task_manager.insert(id, Tasks::new(task, p));
        self.priority_manager.push(p);
        self.task_counter = id + 1;
        proof {
            if before.wf() {
                let after = *self;
                assert forall|q: Priority| #[trigger] after.priority_manager@.count(q) > 0 implies after.keyed(q) by {
                    if q != p {
                        assert(before.priority_manager@.count(q) > 0);
                        assert(before.keyed(q));
                    }
                }
                assert forall|q: Priority| #[trigger] after.failed_task_manager@.count(q) > 0 implies after.keyed(q) by {
                    assert(before.keyed(q));
                }
            }
        }
        Ok(id)
    }

    /// The record of task `task_key`, or `NotFound`.
    pub fn get_task(&self, task_key: u32) -> (r: Result<Tasks, QueueError>)
        ensures
            self.task_manager@.contains_key(task_key) ==> r == Ok::<Tasks, QueueError>(
                self.task_manager@[task_key],
            ),
            !self.task_manager@.contains_key(task_key) ==> r == Err::<Tasks, QueueError>(
                QueueError::NotFound,
            ),
    {
        match self.task_manager.get(&task_key) {
            Some(t) => Ok(*t),
            None => Err(QueueError::NotFound),
        }
    }

    /// The key that the ready structure would give next, or `QueueEmpty`.
    pub fn get_priority_task(&self) -> (r: Result<Priority, QueueError>)
        ensures
            self.priority_manager@.len() == 0 ==> r == Err::<Priority, QueueError>(
                QueueError::QueueEmpty,
            ),
            self.priority_manager@.len() > 0 ==> r == Ok::<Priority, QueueError>(
                top(self.priority_manager@),
            ),
    {
        match self.priority_manager.peek() {
            Some(p) => Ok(p),
            None => Err(QueueError::QueueEmpty),
        }
    }

    /// Takes the greatest key from the ready structure for its first
    /// attempt and resolves its record. The caller runs the handler for the
    /// attempt's kind of work and reports with `complete_task`. On an empty
    /// structure nothing changes and `QueueEmpty` comes back; a key without
    /// a record is consumed and gives `NotFound`.
    pub fn execute_task(&mut self) -> (r: Result<Attempt, QueueError>)
        ensures
            old(self).priority_manager@.len() == 0 ==> r == Err::<Attempt, QueueError>(
                QueueError::QueueEmpty,
            ) && *final(self) == *old(self),
            old(self).priority_manager@.len() > 0 ==> {
                let p = top(old(self).priority_manager@);
                &&& r == old(self).resolve(p)
                &&& final(self).priority_manager@ == old(self).priority_manager@.remove(p)
                &&& final(self).task_counter == old(self).task_counter
                &&& final(self).task_manager@ == old(self).task_manager@
                &&& final(self).failed_task_manager@ == old(self).failed_task_manager@
            },
            old(self).wf() ==> final(self).wf(),
    {
        if self.priority_manager.is_empty() {
            return Err(QueueError::QueueEmpty);
        }
        let ghost before = *self;
        let p = match self.priority_manager.pop() {
            Some(p) => p,
            None => {
                return Err(QueueError::QueueEmpty);
            },
        };
        proof {
            if before.wf() {
                assert forall|q: Priority| #[trigger] self.priority_manager@.count(q) > 0 implies self.keyed(q) by {
                    assert(before.priority_manager@.count(q) > 0);
                }
            }
        }
        match self.task_manager.get(&p.task_id()) {
            Some(t) => Ok(Attempt { key: p, task_type: t.task_type }),
            None => Err(QueueError::NotFound),
        }
    }

    /// Takes the greatest key from the failed structure for a retry and
    /// resolves its record. The key is consumed whatever comes back: a task
    /// that has failed the maximum of times gives `RetryLimitExceeded` and is
    /// not put back. On an empty structure nothing changes and `QueueEmpty`
    /// comes back.
    pub fn re_execute_task(&mut self) -> (r: Result<Attempt, QueueError>)
        ensures
            old(self).failed_task_manager@.len() == 0 ==> r == Err::<Attempt, QueueError>(
                QueueError::QueueEmpty,
            ) && *final(self) == *old(self),
            old(self).failed_task_manager@.len() > 0 ==> {
                let p = top(old(self).failed_task_manager@);
                &&& r == old(self).resolve_retry(p)
                &&& final(self).failed_task_manager@ == old(self).failed_task_manager@.remove(p)
                &&& final(self).task_counter == old(self).task_counter
                &&& final(self).task_manager@ == old(self).task_manager@
                &&& final(self).priority_manager@ == old(self).priority_manager@
            },
            old(self).wf() ==> final(self).wf(),
    {
        if self.failed_task_manager.is_empty() {
            return Err(QueueError::QueueEmpty);
        }
        let ghost before = *self;
        let p = match self.failed_task_manager.pop() {
            Some(p) => p,
            None => {
                return Err(QueueError::QueueEmpty);
            },
        };
        proof {
            if before.wf() {
                assert forall|q: Priority| #[trigger] self.failed_task_manager@.count(q) > 0 implies self.keyed(q) by {
                    assert(before.failed_task_manager@.count(q) > 0);
                }
            }
        }
        match self.task_manager.get(&p.task_id()) {
            Some(t) => {
                if t.retry_counter >= MAX_TASK_RETRY {
                    Err(QueueError::RetryLimitExceeded)
                } else {
                    Ok(Attempt { key: p, task_type: t.task_type })
                }
            },
            None => Err(QueueError::NotFound),
        }
    }

    /// Records how an attempt went. Success changes nothing. A failure adds
    /// one to the record's counter, sets its delay to `2^counter` seconds and
    /// puts the task's key into the failed structure, unless the record has
    /// already failed the maximum of times (`RetryLimitExceeded`, nothing
    /// changes). `NotFound` when the attempt's id has no record.
    pub fn complete_task(&mut self, attempt: Attempt, succeeded: bool) -> (r: Result<
        (),
        QueueError,
    >)
        ensures
            TaskQueue::completion(*old(self), *final(self), attempt, succeeded, r),
            old(self).wf() ==> final(self).wf(),
    {
        let id = attempt.key.task_id();
        let rec = match self.task_manager.get(&id) {
            Some(t) => *t,
            None => {
                return Err(QueueError::NotFound);
            },
        };
        if succeeded {
            return Ok(());
        }
        if rec.retry_counter >= MAX_TASK_RETRY {
            return Err(QueueError::RetryLimitExceeded);
        }
        let ghost before = *self;
        let retry = rec.retry_counter + 1;
        let updated = Tasks {
            task_type: rec.task_type,
            priority_level: rec.priority_level,
            retry_counter: retry,
            delay_secs: backoff_secs(retry),
        };
        self.task_manager.insert(id, updated);
        self.failed_task_manager.push(rec.priority_level);
        proof {
            if before.wf() {
                let after = *self;
                assert forall|q: Priority| #[trigger] after.priority_manager@.count(q) > 0 implies after.keyed(q) by {
                    assert(before.keyed(q));
                }
                assert forall|q: Priority| #[trigger] after.failed_task_manager@.count(q) > 0 implies after.keyed(q) by {
                    if q != rec.priority_level {
                        assert(before.failed_task_manager@.count(q) > 0);
                        assert(before.keyed(q));
                    }
                }
            }
        }
        Ok(())
    }

    /// What a worker does next: run a ready task if there is one, else wait
    /// out the delay of the greatest failed task and retry, else idle.
    pub fn next_action(&self) -> (r: WorkerAction)
        ensures
            self.priority_manager@.len() > 0 ==> r == WorkerAction::Execute,
            self.priority_manager@.len() == 0 && self.failed_task_manager@.len() > 0 ==> r == (
            WorkerAction::Retry { delay_secs: self.pending_delay(top(self.failed_task_manager@)) }),
            self.priority_manager@.len() == 0 && self.failed_task_manager@.len() == 0 ==> r
                == WorkerAction::Idle,
    {
        if !self.priority_manager.is_empty() {
            return WorkerAction::Execute;
        }
        match self.failed_task_manager.peek() {
            Some(p) => match self.task_manager.get(&p.task_id()) {
                Some(t) => WorkerAction::Retry { delay_secs: t.delay_secs },
                None => WorkerAction::Retry { delay_secs: 0 },
            },
            None => WorkerAction::Idle,
        }
    }

    /// A pool needs at least one worker: `InvalidWorkerCount` for none.
    pub fn check_worker_count(num_workers: usize) -> (r: Result<(), QueueError>)
        ensures
            num_workers == 0 ==> r == Err::<(), QueueError>(QueueError::InvalidWorkerCount),
            num_workers > 0 ==> r == Ok::<(), QueueError>(()),
    {
        if num_workers == 0 {
            Err(QueueError::InvalidWorkerCount)
        } else {
            Ok(())
        }
    }
}

} // verus!
