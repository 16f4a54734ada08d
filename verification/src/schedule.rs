//! Job handles and the queue that keeps them in the order of their deadlines.

use crate::clock::epoch_seconds;
use crate::operation::{Operation, OperationView};
use crate::seq_facts::{lemma_filter_prefix, lemma_filter_suffix};
use vstd::prelude::*;

verus! {

/// The seconds between two passes of the scheduler.
pub const TICK_SECONDS: u64 = 5;

/// The last second at which handles can be made and moved: from then on a
/// deadline one interval later might not fit a handle.
pub const LATEST_NOW: u64 = 0xffff_ffff_0000_0000;

/// The scheduler's record of one operation: the operation and the second at
/// which it runs next.
pub struct OperationJob {
    pub next_deadline: u64,
    pub operation: Operation,
}

/// The mathematical value of an `OperationJob`.
pub struct OperationJobView {
    pub next_deadline: u64,
    pub operation: OperationView,
}

impl View for OperationJob {
    type V = OperationJobView;

    open spec fn view(&self) -> OperationJobView {
        OperationJobView { next_deadline: self.next_deadline, operation: self.operation@ }
    }
}

/// The views of the handles of a list, in order.
pub open spec fn job_views(jobs: Seq<OperationJob>) -> Seq<OperationJobView> {
    Seq::new(jobs.len(), |i: int| jobs[i]@)
}

/// The first deadline of an operation that is taken up at `now`: the next
/// second after `now` that is a multiple of `interval`.
pub open spec fn first_deadline(now: int, interval: int) -> int
    recommends
        interval > 0,
{
    now - now % interval + interval
}

/// The first deadline is a multiple of the interval, lies after `now`, and
/// no more than one interval after it.
pub proof fn lemma_first_deadline(now: int, interval: int)
    requires
        interval > 0,
    ensures
        first_deadline(now, interval) % interval == 0,
        now < first_deadline(now, interval) <= now + interval,
        first_deadline(now, interval) == (now / interval + 1) * interval,
{
    let n = now;
    let d = interval;
    vstd::arithmetic::div_mod::lemma_fundamental_div_mod(n, d);
    vstd::arithmetic::div_mod::lemma_mod_bound(n, d);
    assert((n / d + 1) * d == d * (n / d) + d) by (nonlinear_arith);
    vstd::arithmetic::div_mod::lemma_mod_multiples_basic(n / d + 1, d);
}

impl OperationJobView {
    /// The handle as it is put back after a run: one interval later.
    pub open spec fn advanced(self) -> OperationJobView {
        OperationJobView {
            next_deadline: (self.next_deadline + self.operation.interval) as u64,
            operation: self.operation,
        }
    }

    /// The handle is due at `now`.
    pub open spec fn due(self, now: u64) -> bool {
        self.next_deadline <= now
    }
}

impl OperationJob {
    /// The handle of an operation that is taken up at `now`.
    pub fn scheduled(operation: Operation, now: u64) -> (job: OperationJob)
        requires
            operation.interval > 0,
            first_deadline(now as int, operation.interval as int) <= u64::MAX,
        ensures
            job.operation == operation,
            job.next_deadline == first_deadline(now as int, operation.interval as int),
    {
        let interval = operation.interval as u64;
        assert(now % interval <= now) by (nonlinear_arith)
            requires
                interval > 0,
        ;
        OperationJob { next_deadline: now - now % interval + interval, operation }
    }

    /// The handle of an operation that is taken up now, by the system's
    /// clock. There is none where the clock stands before the epoch.
    pub fn new(operation: Operation) -> (job: Option<OperationJob>)
        requires
            operation.interval > 0,
        ensures
            job matches Some(job) ==> {
                &&& job.operation == operation
                &&& exists|now: u64|
                    job.next_deadline == first_deadline(now as int, operation.interval as int)
            },
    {
        match epoch_seconds() {
            None => None,
            Some(now) => {
                proof {
                    lemma_first_deadline(now as int, operation.interval as int);
                }
                Some(OperationJob::scheduled(operation, now))
            },
        }
    }

    /// Copies the handle.
    pub fn duplicate(&self) -> (copy: OperationJob)
        ensures
            copy@ == self@,
    {
        OperationJob { next_deadline: self.next_deadline, operation: self.operation.duplicate() }
    }

    /// The handle one interval later, as it goes back into the queue after a
    /// run.
    pub fn advance(self) -> (later: OperationJob)
        requires
            self.next_deadline + self.operation.interval <= u64::MAX,
        ensures
            later@ == self@.advanced(),
            later.operation == self.operation,
    {
        OperationJob {
            next_deadline: self.next_deadline + self.operation.interval as u64,
            operation: self.operation,
        }
    }
}

/// A handle that has just run at `now` goes back exactly one interval after
/// its old deadline; that is after `now` exactly where the interval is longer
/// than the time by which the run was late.
pub proof fn lemma_advanced_deadline(job: OperationJobView, now: u64)
    requires
        job.due(now),
        job.next_deadline + job.operation.interval <= u64::MAX,
    ensures
        job.advanced().next_deadline == job.next_deadline + job.operation.interval,
        job.advanced().operation == job.operation,
        job.advanced().next_deadline > now <==> job.operation.interval > now - job.next_deadline,
{
}

/// The test "not after `time`", as a predicate on handles.
pub open spec fn by_time(time: u64) -> spec_fn(OperationJobView) -> bool {
    |job: OperationJobView| job.next_deadline <= time
}

/// The test "after `time`", as a predicate on handles.
pub open spec fn past_time(time: u64) -> spec_fn(OperationJobView) -> bool {
    |job: OperationJobView| job.next_deadline > time
}

/// The handles of `queue` whose deadline is not after `time`, in order.
pub open spec fn not_after(queue: Seq<OperationJobView>, time: u64) -> Seq<OperationJobView> {
    queue.filter(by_time(time))
}

/// The handles of `queue` whose deadline is after `time`, in order.
pub open spec fn after(queue: Seq<OperationJobView>, time: u64) -> Seq<OperationJobView> {
    queue.filter(past_time(time))
}

/// No handle of the sequence stands before one with an earlier deadline.
pub open spec fn ordered(queue: Seq<OperationJobView>) -> bool {
    forall|i: int, j: int|
        0 <= i <= j < queue.len() ==> queue[i].next_deadline <= queue[j].next_deadline
}

/// `queue` with `job` added: behind every handle that is due no later than
/// `job`, before every handle that is due later.
pub open spec fn with_job(queue: Seq<OperationJobView>, job: OperationJobView) -> Seq<
    OperationJobView,
> {
    not_after(queue, job.next_deadline).push(job) + after(queue, job.next_deadline)
}

/// In an ordered sequence the handles not after `time` are a prefix and the
/// others the rest.
pub proof fn lemma_split_at(queue: Seq<OperationJobView>, time: u64, n: int)
    requires
        0 <= n <= queue.len(),
        forall|i: int| 0 <= i < n ==> (#[trigger] queue[i]).next_deadline <= time,
        forall|i: int| n <= i < queue.len() ==> (#[trigger] queue[i]).next_deadline > time,
    ensures
        not_after(queue, time) == queue.take(n),
        after(queue, time) == queue.skip(n),
{
    lemma_filter_prefix(queue, by_time(time), n);
    lemma_filter_suffix(queue, past_time(time), n);
}

/// The handles that are due leave an ordered queue in the order of their
/// deadlines, and the handles that stay are ordered too.
pub proof fn lemma_parts_ordered(queue: Seq<OperationJobView>, time: u64)
    requires
        ordered(queue),
    ensures
        ordered(not_after(queue, time)),
        ordered(after(queue, time)),
        not_after(queue, time).len() + after(queue, time).len() == queue.len(),
        forall|i: int|
            0 <= i < not_after(queue, time).len() ==> (#[trigger] not_after(queue, time)[i]).due(
                time,
            ),
        forall|i: int|
            0 <= i < after(queue, time).len() ==> !(#[trigger] after(queue, time)[i]).due(time),
{
    let n = split_point(queue, time);
    lemma_split_point(queue, time);
    lemma_split_at(queue, time, n);
    assert forall|i: int, j: int| 0 <= i <= j < queue.skip(n).len() implies queue.skip(
        n,
    )[i].next_deadline <= queue.skip(n)[j].next_deadline by {
        assert(queue[i + n].next_deadline <= queue[j + n].next_deadline);
    }
}

/// Adding a handle to an ordered sequence leaves it ordered.
pub proof fn lemma_with_job_ordered(queue: Seq<OperationJobView>, job: OperationJobView)
    requires
        ordered(queue),
    ensures
        ordered(with_job(queue, job)),
        with_job(queue, job).len() == queue.len() + 1,
{
    let n = split_point(queue, job.next_deadline);
    lemma_split_point(queue, job.next_deadline);
    lemma_split_at(queue, job.next_deadline, n);
    let out = with_job(queue, job);
    assert(out =~= queue.take(n).push(job) + queue.skip(n));
    assert forall|i: int, j: int| 0 <= i <= j < out.len() implies out[i].next_deadline
        <= out[j].next_deadline by {
        if i < n {
            assert(out[i] == queue[i]);
        } else if i > n {
            assert(out[i] == queue[i - 1]);
        }
        if j < n {
            assert(out[j] == queue[j]);
        } else if j > n {
            assert(out[j] == queue[j - 1]);
        }
    }
}

/// The number of handles of `queue` that are not after `time`.
pub open spec fn split_point(queue: Seq<OperationJobView>, time: u64) -> int {
    not_after(queue, time).len() as int
}

/// In an ordered sequence, the handles before the split point are those not
/// after `time`.
pub proof fn lemma_split_point(queue: Seq<OperationJobView>, time: u64)
    requires
        ordered(queue),
    ensures
        0 <= split_point(queue, time) <= queue.len(),
        forall|i: int|
            0 <= i < split_point(queue, time) ==> (#[trigger] queue[i]).next_deadline <= time,
        forall|i: int|
            split_point(queue, time) <= i < queue.len() ==> (#[trigger] queue[i]).next_deadline
                > time,
    decreases queue.len(),
{
    reveal(Seq::filter);
    if queue.len() > 0 {
        let front = queue.drop_last();
        let last = queue.len() - 1;
        lemma_split_point(front, time);
        let n = split_point(front, time);
        if queue.last().next_deadline <= time {
            if n < front.len() {
                assert(front[n].next_deadline > time);
                assert(queue[n].next_deadline <= queue[last].next_deadline);
            }
            assert(split_point(queue, time) == queue.len());
            assert forall|i: int| 0 <= i < queue.len() implies (#[trigger] queue[i]).next_deadline
                <= time by {
                assert(queue[i].next_deadline <= queue[last].next_deadline);
            }
        } else {
            assert(split_point(queue, time) == n);
            assert forall|i: int| 0 <= i < n implies (#[trigger] queue[i]).next_deadline
                <= time by {
                assert(queue[i] == front[i]);
            }
            assert forall|i: int| n <= i < queue.len() implies (#[trigger] queue[i]).next_deadline
                > time by {
                if i < last {
                    assert(queue[i] == front[i]);
                }
            }
        }
    }
}

/// `queue` after each of `jobs` went back into it in turn, one interval
/// later.
pub open spec fn requeued(queue: Seq<OperationJobView>, jobs: Seq<OperationJobView>) -> Seq<
    OperationJobView,
>
    decreases jobs.len(),
{
    if jobs.len() == 0 {
        queue
    } else {
        with_job(requeued(queue, jobs.drop_last()), jobs.last().advanced())
    }
}

/// `queue` after the pass of the scheduler at `now`: the handles that are
/// due leave it and go back one interval later, earliest first.
pub open spec fn ticked(queue: Seq<OperationJobView>, now: u64) -> Seq<OperationJobView> {
    requeued(after(queue, now), not_after(queue, now))
}

/// Putting handles back into an ordered queue leaves it ordered, and each of
/// them adds one to its length.
pub proof fn lemma_requeued_ordered(queue: Seq<OperationJobView>, jobs: Seq<OperationJobView>)
    requires
        ordered(queue),
    ensures
        ordered(requeued(queue, jobs)),
        requeued(queue, jobs).len() == queue.len() + jobs.len(),
    decreases jobs.len(),
{
    if jobs.len() > 0 {
        lemma_requeued_ordered(queue, jobs.drop_last());
        lemma_with_job_ordered(requeued(queue, jobs.drop_last()), jobs.last().advanced());
    }
}

/// What `with_job` holds: the handle that was added and the handles that
/// were there.
pub proof fn lemma_with_job_contains(
    queue: Seq<OperationJobView>,
    job: OperationJobView,
    member: OperationJobView,
)
    requires
        queue.contains(member) || member == job,
    ensures
        with_job(queue, job).contains(member),
{
    let early = not_after(queue, job.next_deadline);
    let late = after(queue, job.next_deadline);
    let out = with_job(queue, job);
    if member == job {
        assert(out[early.len() as int] == job);
    } else {
        let i = choose|i: int| 0 <= i < queue.len() && queue[i] == member;
        if member.next_deadline <= job.next_deadline {
            queue.lemma_filter_contains(by_time(job.next_deadline), i);
            let k = choose|k: int| 0 <= k < early.len() && early[k] == member;
            assert(out[k] == member);
        } else {
            queue.lemma_filter_contains(past_time(job.next_deadline), i);
            let k = choose|k: int| 0 <= k < late.len() && late[k] == member;
            assert(out[early.len() + 1 + k] == member);
        }
    }
}

/// What `requeued` holds: the handles that were in the queue, and each of
/// the handles that went back, one interval later.
pub proof fn lemma_requeued_contains(
    queue: Seq<OperationJobView>,
    jobs: Seq<OperationJobView>,
    member: OperationJobView,
)
    requires
        queue.contains(member) || exists|k: int|
            0 <= k < jobs.len() && member == (#[trigger] jobs[k]).advanced(),
    ensures
        requeued(queue, jobs).contains(member),
    decreases jobs.len(),
{
    if jobs.len() > 0 {
        let front = jobs.drop_last();
        if queue.contains(member) {
            lemma_requeued_contains(queue, front, member);
        } else {
            let k = choose|k: int| 0 <= k < jobs.len() && member == (#[trigger] jobs[k]).advanced();
            if k < front.len() {
                assert(front[k] == jobs[k]);
                lemma_requeued_contains(queue, front, member);
            }
        }
        lemma_with_job_contains(requeued(queue, front), jobs.last().advanced(), member);
    }
}

/// A pass of the scheduler loses no handle: the queue is as long as it was,
/// a handle that is not due stays, and a handle that is due is there again
/// one interval later.
pub proof fn lemma_ticked(queue: Seq<OperationJobView>, now: u64, i: int)
    requires
        ordered(queue),
        0 <= i < queue.len(),
    ensures
        ordered(ticked(queue, now)),
        ticked(queue, now).len() == queue.len(),
        queue[i].due(now) ==> ticked(queue, now).contains(queue[i].advanced()),
        !queue[i].due(now) ==> ticked(queue, now).contains(queue[i]),
{
    let n = split_point(queue, now);
    lemma_split_point(queue, now);
    lemma_split_at(queue, now, n);
    let due = not_after(queue, now);
    let rest = after(queue, now);
    assert forall|a: int, b: int| 0 <= a <= b < rest.len() implies rest[a].next_deadline
        <= rest[b].next_deadline by {
        assert(rest[a] == queue[a + n] && rest[b] == queue[b + n]);
    }
    lemma_requeued_ordered(rest, due);
    if queue[i].due(now) {
        assert(due[i] == queue[i]);
        lemma_requeued_contains(rest, due, queue[i].advanced());
    } else {
        assert(rest[i - n] == queue[i]);
        lemma_requeued_contains(rest, due, queue[i]);
    }
}

/// The handles of one bucket, earliest deadline first. Handles with the same
/// deadline stand in the order in which they came.
pub struct JobQueue {
    jobs: Vec<OperationJob>,
}

impl View for JobQueue {
    type V = Seq<OperationJobView>;

    closed spec fn view(&self) -> Seq<OperationJobView> {
        job_views(self.jobs@)
    }
}

impl JobQueue {
    /// The queue's invariant: its handles stand in the order of their
    /// deadlines.
    pub open spec fn wf(&self) -> bool {
        ordered(self@)
    }

    /// The empty queue.
    pub fn new() -> (queue: JobQueue)
        ensures
            queue.wf(),
            queue@ == Seq::<OperationJobView>::empty(),
    {
        let queue = JobQueue { jobs: Vec::new() };
        assert(queue@ =~= Seq::<OperationJobView>::empty());
        queue
    }

    /// The number of handles.
    pub fn len(&self) -> (len: usize)
        ensures
            len == self@.len(),
    {
        self.jobs.len()
    }

    /// Whether the queue holds no handle.
    pub fn is_empty(&self) -> (empty: bool)
        ensures
            empty == (self@.len() == 0),
    {
        self.jobs.len() == 0
    }

    /// The handle that is due first, if there is one.
    pub fn peek(&self) -> (head: Option<&OperationJob>)
        ensures
            match head {
                Some(job) => self@.len() > 0 && job@ == self@[0],
                None => self@.len() == 0,
            },
    {
        if self.jobs.len() == 0 {
            None
        } else {
            Some(&self.jobs[0])
        }
    }

    /// Adds a handle, behind those that are due no later than it.
    pub fn push(&mut self, job: OperationJob)
        requires
            old(self).wf(),
        ensures
            final(self).wf(),
            final(self)@ == with_job(old(self)@, job@),
    {
        let mut at: usize = 0;
        while at < self.jobs.len() && self.jobs[at].next_deadline <= job.next_deadline
            invariant
                at <= self.jobs.len(),
                forall|i: int| 0 <= i < at ==> (#[trigger] self@[i]).next_deadline <= job.next_deadline,
            decreases self.jobs.len() - at,
        {
            at += 1;
        }
        proof {
            let queue = self@;
            assert forall|i: int| at <= i < queue.len() implies (#[trigger] queue[i]).next_deadline
                > job.next_deadline by {
                assert(queue[at as int].next_deadline <= queue[i].next_deadline);
            }
            lemma_split_at(queue, job.next_deadline, at as int);
            lemma_with_job_ordered(queue, job@);
        }
        self.jobs.insert(at, job);
        assert(self@ =~= with_job(old(self)@, job@));
    }

    /// Takes the handle that is due first out of the queue.
    pub fn pop(&mut self) -> (head: Option<OperationJob>)
        requires
            old(self).wf(),
        ensures
            final(self).wf(),
            match head {
                Some(job) => old(self)@.len() > 0 && job@ == old(self)@[0] && final(self)@ == old(
                    self,
                )@.skip(1),
                None => old(self)@.len() == 0 && final(self)@ == old(self)@,
            },
    {
        if self.jobs.len() == 0 {
            None
        } else {
            let job = self.jobs.remove(0);
            assert(self@ =~= old(self)@.skip(1));
            Some(job)
        }
    }

    /// Takes out every handle that is due at `now`, earliest first, and
    /// leaves the others.
    pub fn take_due(&mut self, now: u64) -> (due: Vec<OperationJob>)
        requires
            old(self).wf(),
        ensures
            final(self).wf(),
            job_views(due@) == not_after(old(self)@, now),
            final(self)@ == after(old(self)@, now),
    {
        let mut count: usize = 0;
        while count < self.jobs.len() && self.jobs[count].next_deadline <= now
            invariant
                count <= self.jobs.len(),
                forall|i: int| 0 <= i < count ==> (#[trigger] self@[i]).next_deadline <= now,
            decreases self.jobs.len() - count,
        {
            count += 1;
        }
        proof {
            let queue = self@;
            assert forall|i: int| count <= i < queue.len() implies (#[trigger] queue[i]).next_deadline
                > now by {
                assert(queue[count as int].next_deadline <= queue[i].next_deadline);
            }
            lemma_split_at(queue, now, count as int);
        }
        let mut rest = self.jobs.split_off(count);
        std::mem::swap(&mut self.jobs, &mut rest);
        assert(job_views(rest@) =~= old(self)@.take(count as int));
        assert(self@ =~= old(self)@.skip(count as int));
        rest
    }

    /// Copies of the handles, earliest first.
    pub fn handles(&self) -> (copies: Vec<OperationJob>)
        ensures
            job_views(copies@) == self@,
    {
        let mut copies: Vec<OperationJob> = Vec::new();
        let mut i: usize = 0;
        while i < self.jobs.len()
            invariant
                i <= self.jobs.len(),
                copies.len() == i,
                forall|k: int| 0 <= k < i ==> (#[trigger] copies[k])@ == self.jobs@[k]@,
            decreases self.jobs.len() - i,
        {
            copies.push(self.jobs[i].duplicate());
            i += 1;
        }
        assert(job_views(copies@) =~= self@);
        copies
    }

    /// One pass of the scheduler over the queue at `now`: every handle that
    /// is due leaves the queue once and goes back one interval later. Returns
    /// the handles that are to run, with the deadlines they were due at,
    /// earliest first.
    pub fn tick(&mut self, now: u64) -> (due: Vec<OperationJob>)
        requires
            old(self).wf(),
            now <= LATEST_NOW,
        ensures
            final(self).wf(),
            job_views(due@) == not_after(old(self)@, now),
            final(self)@ == ticked(old(self)@, now),
    {
        let due = self.take_due(now);
        let ghost rest = self@;
        let ghost taken = job_views(due@);
        let mut i: usize = 0;
        while i < due.len()
            invariant
                i <= due.len(),
                self.wf(),
                now <= LATEST_NOW,
                taken == job_views(due@),
                taken == not_after(old(self)@, now),
                self@ == requeued(rest, taken.take(i as int)),
            decreases due.len() - i,
        {
            let copy = due[i].duplicate();
            proof {
                old(self)@.lemma_filter_pred(by_time(now), i as int);
                assert(taken[i as int] == due[i as int]@);
                assert(taken.take(i + 1).drop_last() =~= taken.take(i as int));
                assert(taken.take(i + 1).last() == copy@);
            }
            self.push(copy.advance());
            i += 1;
        }
        proof {
            assert(taken.take(due.len() as int) =~= taken);
        }
        due
    }
}

} // verus!
