//! The worker pool's decisions: which worker takes which task, what a
//! finished exchange means, and what happens when a subprocess is lost.
//!
//! The pool holds no subprocess. Its owner writes and reads the pipes and
//! reports each outcome; the pool answers with what to do next.

use crate::batch::{taken_in, Batch};
use crate::evaluator::{
    carries,
    evaluate,
    exchange_outcome,
    Evaluator,
    Exchange,
    Recovery,
    WorkerState,
};
use crate::protocol::{EvaluationError, Request};
use crate::startup::StartupConfigurationError;
use std::collections::VecDeque;
use vstd::prelude::*;

verus! {

/// A task on its way to a worker: its correlation id and its request line.
pub struct Job {
    pub task: u64,
    pub request: Request,
}

/// What became of a submitted task.
pub enum Submission {
    /// Write the job's request to this worker's subprocess now.
    Dispatch { worker: usize, job: Job },
    /// Every live worker is busy; the task waits its turn.
    Queued { task: u64 },
    /// Every worker is retired; the task fails at once with `WorkerCrashed`.
    Rejected { task: u64 },
}

/// What the pool's owner must do after it reported an outcome.
pub struct Step {
    /// The task that just finished, with its result.
    pub finished: Option<(u64, Result<String, EvaluationError>)>,
    /// Waiting tasks that fail with `WorkerCrashed` because the last worker
    /// retired, oldest first.
    pub failed: Vec<u64>,
    /// What to do with the reporting worker's subprocess.
    pub recovery: Recovery,
    /// The next job for the reporting worker, to be written once its
    /// subprocess is in order.
    pub dispatch: Option<Job>,
}

impl Step {
    /// The correlation id of the task that the step finished.
    pub open spec fn finished_task(self) -> u64
        recommends
            self.finished is Some,
    {
        match self.finished {
            Some((task, _)) => task,
            None => 0,
        }
    }
}

/// Whether every worker is retired.
pub open spec fn all_retired(workers: Seq<Evaluator>) -> bool {
    forall|w: int| 0 <= w < workers.len() ==> (#[trigger] workers[w]).state() == WorkerState::Retired
}

/// Whether no worker is ready.
pub open spec fn none_ready(workers: Seq<Evaluator>) -> bool {
    forall|w: int| 0 <= w < workers.len() ==> (#[trigger] workers[w]).state() != WorkerState::Ready
}

/// Whether worker `i` is looked at before worker `pick` by a search that
/// starts at `cursor` and wraps around.
pub open spec fn comes_before(cursor: int, i: int, pick: int) -> bool {
    if cursor <= pick {
        cursor <= i < pick
    } else {
        i >= cursor || i < pick
    }
}

/// Round robin: `pick` is the first ready worker at or after `cursor`,
/// wrapping around.
pub open spec fn round_robin_pick(workers: Seq<Evaluator>, cursor: int, pick: int) -> bool {
    &&& 0 <= pick < workers.len()
    &&& workers[pick].state() == WorkerState::Ready
    &&& forall|i: int|
        0 <= i < workers.len() && comes_before(cursor, i, pick) ==> (#[trigger] workers[i]).state()
            != WorkerState::Ready
}

/// How many workers hold a task.
pub open spec fn busy_count(workers: Seq<Evaluator>) -> nat
    decreases workers.len(),
{
    if workers.len() == 0 {
        0
    } else {
        busy_count(workers.drop_last()) + if workers.last().state() is Busy {
            1nat
        } else {
            0nat
        }
    }
}

/// The tasks that the workers hold, in the order of the slots.
pub open spec fn in_flight(workers: Seq<Evaluator>) -> Seq<u64>
    decreases workers.len(),
{
    if workers.len() == 0 {
        Seq::empty()
    } else if workers.last().state() is Busy {
        in_flight(workers.drop_last()).push(workers.last().state()->task)
    } else {
        in_flight(workers.drop_last())
    }
}

/// The correlation ids of a queue of jobs, oldest first.
pub open spec fn ids(jobs: Seq<Job>) -> Seq<u64> {
    Seq::new(jobs.len(), |i: int| jobs[i].task)
}

/// What a result is worth to the caller that submitted the task: the text,
/// or `WorkerCrashed` whatever went wrong with the worker.
pub open spec fn reported(outcome: Result<Seq<char>, EvaluationError>) -> Result<
    Seq<char>,
    EvaluationError,
> {
    match outcome {
        Ok(text) => Ok(text),
        Err(_) => Err(EvaluationError::WorkerCrashed),
    }
}

/// A fixed set of workers, the tasks that wait for one, and the counter
/// that numbers the tasks.
pub struct WorkerPool {
    workers: Vec<Evaluator>,
    queue: VecDeque<Job>,
    next_id: u64,
    completed: u64,
    cursor: usize,
}

impl WorkerPool {
    /// The workers, by slot.
    pub closed spec fn workers(&self) -> Seq<Evaluator> {
        self.workers@
    }

    /// The jobs that wait for a worker, oldest first.
    pub closed spec fn queued(&self) -> Seq<Job> {
        self.queue@
    }

    /// How many tasks were submitted so far; also the next correlation id.
    pub closed spec fn submitted(&self) -> nat {
        self.next_id as nat
    }

    /// How many tasks have their result.
    pub closed spec fn completed(&self) -> nat {
        self.completed as nat
    }

    /// The slot where the next search for a ready worker starts.
    pub closed spec fn cursor(&self) -> nat {
        self.cursor as nat
    }

    /// How many workers the pool has.
    pub open spec fn size(&self) -> nat {
        self.workers().len()
    }

    /// The pool's invariant.
    pub open spec fn wf(&self) -> bool {
        let workers = self.workers();
        let queued = self.queued();
        &&& workers.len() >= 1
        &&& self.cursor() < workers.len()
        &&& self.completed() + busy_count(workers) + queued.len() == self.submitted()
        &&& forall|w: int|
            0 <= w < workers.len() && (#[trigger] workers[w]).state() is Busy ==> workers[w].state()->task
                < self.submitted()
        &&& forall|a: int, b: int|
            0 <= a < workers.len() && 0 <= b < workers.len() && a != b && (
            #[trigger] workers[a]).state() is Busy && (#[trigger] workers[b]).state() is Busy
                ==> workers[a].state()->task != workers[b].state()->task
        &&& forall|i: int| 0 <= i < queued.len() ==> (#[trigger] queued[i]).task < self.submitted()
        &&& forall|i: int, j: int|
            0 <= i < j < queued.len() ==> (#[trigger] queued[i]).task < (#[trigger] queued[j]).task
        &&& forall|w: int, i: int|
            0 <= w < workers.len() && 0 <= i < queued.len() && (#[trigger] workers[w]).state() is Busy
                ==> workers[w].state()->task < (#[trigger] queued[i]).task
        &&& queued.len() > 0 ==> none_ready(workers)
        &&& all_retired(workers) ==> queued.len() == 0
    }

    /// Whether the task with this correlation id is with a worker or in the
    /// queue: submitted, and still without its result.
    pub open spec fn holds(&self, task: u64) -> bool {
        ||| exists|w: int|
            0 <= w < self.workers().len() && (#[trigger] self.workers()[w]).state() == (
            WorkerState::Busy { task })
        ||| exists|i: int| 0 <= i < self.queued().len() && (#[trigger] self.queued()[i]).task == task
    }

    /// Whether the pool owes the batch exactly the results that the batch
    /// misses: every task of the batch was submitted, and a slot of the
    /// batch is empty exactly while the pool holds its task.
    pub open spec fn owes(&self, batch: Batch) -> bool {
        &&& batch.first() + batch.size() <= self.submitted()
        &&& forall|i: int|
            0 <= i < batch.size() ==> ((#[trigger] batch.slots()[i]) is None <==> self.holds(
                (batch.first() + i) as u64,
            ))
    }

    /// Whether no task is in flight or waiting.
    pub open spec fn idle(&self) -> bool {
        busy_count(self.workers()) == 0 && self.queued().len() == 0
    }

    /// Every worker but `w` is as it was.
    pub open spec fn others_kept(pre: Seq<Evaluator>, post: Seq<Evaluator>, w: int) -> bool {
        &&& post.len() == pre.len()
        &&& forall|i: int| 0 <= i < pre.len() && i != w ==> #[trigger] post[i] == pre[i]
    }

    /// A worker that became ready takes the oldest waiting job, if there is
    /// one.
    pub open spec fn resumed(
        pre_queue: Seq<Job>,
        post_queue: Seq<Job>,
        worker: Evaluator,
        dispatch: Option<Job>,
    ) -> bool {
        if pre_queue.len() > 0 {
            &&& dispatch == Some(pre_queue[0])
            &&& post_queue == pre_queue.skip(1)
            &&& worker.state() == WorkerState::Busy { task: pre_queue[0].task }
        } else {
            &&& dispatch is None
            &&& post_queue == pre_queue
            &&& worker.state() == WorkerState::Ready
        }
    }

    /// When the last worker retires, every waiting task fails, oldest
    /// first; while a worker is left none does.
    pub open spec fn flushed(
        pre_queue: Seq<Job>,
        post_queue: Seq<Job>,
        post_workers: Seq<Evaluator>,
        failed: Seq<u64>,
    ) -> bool {
        if all_retired(post_workers) {
            failed == ids(pre_queue) && post_queue.len() == 0
        } else {
            failed.len() == 0 && post_queue == pre_queue
        }
    }

    /// What taking a task in does to a pool. The task gets the next
    /// correlation id. The first ready worker from the cursor on takes it
    /// and the cursor moves behind that worker; with no worker ready the
    /// task joins the queue; with every worker retired it is rejected and
    /// counts as completed.
    pub open spec fn took(pre: WorkerPool, post: WorkerPool, request: Request, s: Submission) -> bool {
        match s {
            Submission::Dispatch { worker, job } => {
                &&& round_robin_pick(pre.workers(), pre.cursor() as int, worker as int)
                &&& job.task == pre.submitted()
                &&& job.request == request
                &&& post.workers() == pre.workers().update(
                    worker as int,
                    post.workers()[worker as int],
                )
                &&& post.workers()[worker as int].state() == (WorkerState::Busy {
                    task: job.task,
                })
                &&& post.workers()[worker as int].respawns_left()
                    == pre.workers()[worker as int].respawns_left()
                &&& post.queued() == pre.queued()
                &&& post.completed() == pre.completed()
                &&& post.cursor() == if worker + 1 == pre.size() {
                    0
                } else {
                    worker + 1
                }
            },
            Submission::Queued { task } => {
                &&& none_ready(pre.workers())
                &&& !all_retired(pre.workers())
                &&& task == pre.submitted()
                &&& post.workers() == pre.workers()
                &&& post.queued() == pre.queued().push(Job { task, request })
                &&& post.completed() == pre.completed()
                &&& post.cursor() == pre.cursor()
            },
            Submission::Rejected { task } => {
                &&& all_retired(pre.workers())
                &&& task == pre.submitted()
                &&& post.workers() == pre.workers()
                &&& post.queued() == pre.queued()
                &&& post.completed() == pre.completed() + 1
                &&& post.cursor() == pre.cursor()
            },
        }
    }

    /// Whether `chain` is the pool as it was before and after each of the
    /// submissions.
    pub open spec fn chained(
        chain: Seq<WorkerPool>,
        requests: Seq<Request>,
        submissions: Seq<Submission>,
    ) -> bool {
        &&& chain.len() == requests.len() + 1
        &&& submissions.len() == requests.len()
        &&& forall|i: int|
            0 <= i < requests.len() ==> Self::took(
                #[trigger] chain[i],
                chain[i + 1],
                requests[i],
                submissions[i],
            )
    }

    /// What taking a batch in does to a pool: what taking its tasks in one
    /// after the other does.
    pub open spec fn took_all(
        pre: WorkerPool,
        post: WorkerPool,
        requests: Seq<Request>,
        submissions: Seq<Submission>,
    ) -> bool {
        exists|chain: Seq<WorkerPool>|
            #[trigger] Self::chained(chain, requests, submissions) && chain.first() == pre
                && chain.last() == post
    }

    /// What a finished exchange does to a pool. The task that the worker
    /// held finishes: with the reply's text, or with `WorkerCrashed`. After
    /// a good exchange the worker takes the oldest waiting job; after a
    /// failed one it respawns or retires, and the waiting tasks fail when
    /// no worker is left.
    pub open spec fn finished_exchange(
        pre: WorkerPool,
        post: WorkerPool,
        worker: int,
        outcome: Result<Seq<char>, EvaluationError>,
        step: Step,
    ) -> bool {
        let before = pre.workers()[worker];
        let after = post.workers()[worker];
        &&& Self::others_kept(pre.workers(), post.workers(), worker)
        &&& step.finished matches Some((task, result))
        &&& before.state() == (WorkerState::Busy { task })
        &&& carries(result, reported(outcome))
        &&& post.completed() == pre.completed() + 1 + step.failed@.len()
        &&& if outcome is Ok {
            &&& step.recovery == Recovery::Keep
            &&& step.failed@.len() == 0
            &&& after.respawns_left() == before.respawns_left()
            &&& Self::resumed(pre.queued(), post.queued(), after, step.dispatch)
        } else {
            &&& Evaluator::lost(before, after, step.recovery)
            &&& step.dispatch is None
            &&& Self::flushed(pre.queued(), post.queued(), post.workers(), step.failed@)
        }
    }

    /// What the end of a respawn attempt does to a pool. A started worker
    /// takes the oldest waiting job; one that did not start tries again or
    /// retires, and the waiting tasks fail when no worker is left.
    pub open spec fn finished_respawn(
        pre: WorkerPool,
        post: WorkerPool,
        worker: int,
        started: bool,
        step: Step,
    ) -> bool {
        let before = pre.workers()[worker];
        let after = post.workers()[worker];
        &&& Self::others_kept(pre.workers(), post.workers(), worker)
        &&& step.finished is None
        &&& post.completed() == pre.completed() + step.failed@.len()
        &&& if started {
            &&& step.recovery == Recovery::Keep
            &&& step.failed@.len() == 0
            &&& after.respawns_left() == before.respawns_left()
            &&& Self::resumed(pre.queued(), post.queued(), after, step.dispatch)
        } else {
            &&& Evaluator::lost(before, after, step.recovery)
            &&& step.dispatch is None
            &&& Self::flushed(pre.queued(), post.queued(), post.workers(), step.failed@)
        }
    }

    /// A pool of `workers` ready workers, each with the same respawn
    /// budget.
    pub fn new(workers: usize, respawn_budget: u32) -> (r: Result<
        WorkerPool,
        StartupConfigurationError,
    >)
        ensures
            workers == 0 ==> r is Err && r->Err_0 == StartupConfigurationError::NoWorkers,
            workers > 0 ==> r is Ok,
            r matches Ok(pool) ==> {
                &&& pool.wf()
                &&& pool.size() == workers
                &&& pool.submitted() == 0
                &&& pool.completed() == 0
                &&& pool.cursor() == 0
                &&& pool.queued().len() == 0
                &&& forall|w: int|
                    0 <= w < workers ==> (#[trigger] pool.workers()[w]).state() == WorkerState::Ready
                        && pool.workers()[w].respawns_left() == respawn_budget
            },
    {
        if workers == 0 {
            return Err(StartupConfigurationError::NoWorkers);
        }
        let mut slots: Vec<Evaluator> = Vec::new();
        let mut i: usize = 0;
        while i < workers
            invariant
                i <= workers,
                slots@.len() == i,
                busy_count(slots@) == 0,
                forall|w: int|
                    0 <= w < i ==> (#[trigger] slots@[w]).state() == WorkerState::Ready
                        && slots@[w].respawns_left() == respawn_budget,
            decreases workers - i,
        {
            let ghost before = slots@;
            slots.push(Evaluator::new(respawn_budget));
            assert(slots@.drop_last() =~= before);
            i = i + 1;
        }
        Ok(WorkerPool { workers: slots, queue: VecDeque::new(), next_id: 0, completed: 0, cursor: 0 })
    }

    /// How many workers the pool has.
    pub fn worker_count(&self) -> (n: usize)
        ensures
            n == self.size(),
    {
        self.workers.len()
    }

    /// How many tasks were submitted so far.
    pub fn submitted_count(&self) -> (n: u64)
        ensures
            n == self.submitted(),
    {
        self.next_id
    }

    /// How many tasks have their result.
    pub fn completed_count(&self) -> (n: u64)
        ensures
            n == self.completed(),
    {
        self.completed
    }

    /// How many tasks wait for a worker.
    pub fn queued_count(&self) -> (n: usize)
        ensures
            n == self.queued().len(),
    {
        self.queue.len()
    }

    /// The state of one worker.
    pub fn worker(&self, slot: usize) -> (r: Option<Evaluator>)
        ensures
            slot < self.size() ==> r == Some(self.workers()[slot as int]),
            slot >= self.size() ==> r is None,
    {
        if slot < self.workers.len() {
            Some(self.workers[slot])
        } else {
            None
        }
    }

    fn find_ready(&self, lo: usize, hi: usize) -> (r: Option<usize>)
        requires
            lo <= hi <= self.workers@.len(),
        ensures
            match r {
                Some(p) => lo <= p < hi && self.workers@[p as int].state() == WorkerState::Ready
                    && forall|i: int|
                    lo <= i < p ==> (#[trigger] self.workers@[i]).state() != WorkerState::Ready,
                None => forall|i: int|
                    lo <= i < hi ==> (#[trigger] self.workers@[i]).state() != WorkerState::Ready,
            },
    {
        let mut i: usize = lo;
        while i < hi
            invariant
                lo <= i <= hi <= self.workers@.len(),
                forall|k: int|
                    lo <= k < i ==> (#[trigger] self.workers@[k]).state() != WorkerState::Ready,
            decreases hi - i,
        {
            match self.workers[i].current_state() {
                WorkerState::Ready => {
                    return Some(i);
                },
                _ => {},
            }
            i = i + 1;
        }
        None
    }

    fn every_worker_retired(&self) -> (b: bool)
        ensures
            b == all_retired(self.workers@),
    {
        let mut i: usize = 0;
        while i < self.workers.len()
            invariant
                i <= self.workers@.len(),
                forall|k: int|
                    0 <= k < i ==> (#[trigger] self.workers@[k]).state() == WorkerState::Retired,
            decreases self.workers@.len() - i,
        {
            match self.workers[i].current_state() {
                WorkerState::Retired => {},
                _ => {
                    return false;
                },
            }
            i = i + 1;
        }
        true
    }

    /// Takes a task in. It gets the next correlation id. A ready worker,
    /// picked round robin, takes it at once; with none ready it waits in
    /// the queue; with every worker retired it is rejected.
    pub fn submit(&mut self, request: Request) -> (s: Submission)
        requires
            old(self).wf(),
            old(self).submitted() < u64::MAX,
        ensures
            final(self).wf(),
            final(self).size() == old(self).size(),
            final(self).submitted() == old(self).submitted() + 1,
            Self::took(*old(self), *final(self), request, s),
    {
        let task = self.next_id;
        let n = self.workers.len();
        let first = self.find_ready(self.cursor, n);
        let pick = match first {
            Some(p) => Some(p),
            None => self.find_ready(0, self.cursor),
        };
        match pick {
            Some(worker) => {
                let ghost before = self.workers@;
                let mut slot = self.workers[worker];
                slot.begin(task);
                self.workers.set(worker, slot);
                self.next_id = task + 1;
                self.cursor = if worker + 1 == n {
                    0
                } else {
                    worker + 1
                };
                proof {
                    lemma_busy_count_update(before, worker as int, slot);
                    assert(!all_retired(before));
                    assert(!none_ready(before));
                }
                Submission::Dispatch { worker, job: Job { task, request } }
            },
            None => {
                if self.every_worker_retired() {
                    self.next_id = task + 1;
                    self.completed = self.completed + 1;
                    Submission::Rejected { task }
                } else {
                    self.next_id = task + 1;
                    self.queue.push_back(Job { task, request });
                    Submission::Queued { task }
                }
            },
        }
    }

    fn resume(&mut self, worker: usize) -> (dispatch: Option<Job>)
        requires
            worker < old(self).workers@.len(),
            old(self).workers@[worker as int].state() == WorkerState::Ready,
        ensures
            final(self).next_id == old(self).next_id,
            final(self).completed == old(self).completed,
            final(self).cursor == old(self).cursor,
            Self::others_kept(old(self).workers@, final(self).workers@, worker as int),
            final(self).workers@[worker as int].respawns_left() == old(
                self,
            ).workers@[worker as int].respawns_left(),
            Self::resumed(
                old(self).queue@,
                final(self).queue@,
                final(self).workers@[worker as int],
                dispatch,
            ),
            busy_count(final(self).workers@) + final(self).queue@.len() == busy_count(
                old(self).workers@,
            ) + old(self).queue@.len(),
    {
        match self.queue.pop_front() {
            None => None,
            Some(job) => {
                let ghost before = self.workers@;
                let mut slot = self.workers[worker];
                slot.begin(job.task);
                self.workers.set(worker, slot);
                proof {
                    lemma_busy_count_update(before, worker as int, slot);
                    assert(self.queue@ =~= old(self).queue@.skip(1));
                }
                Some(job)
            },
        }
    }

    fn flush(&mut self) -> (failed: Vec<u64>)
        requires
            old(self).completed + old(self).queue@.len() <= u64::MAX,
        ensures
            final(self).workers@ == old(self).workers@,
            final(self).next_id == old(self).next_id,
            final(self).cursor == old(self).cursor,
            final(self).queue@.len() == 0,
            failed@ == ids(old(self).queue@),
            final(self).completed == old(self).completed + old(self).queue@.len(),
    {
        let mut failed: Vec<u64> = Vec::new();
        let ghost all = self.queue@;
        while self.queue.len() > 0
            invariant
                self.workers@ == old(self).workers@,
                self.next_id == old(self).next_id,
                self.cursor == old(self).cursor,
                all == old(self).queue@,
                failed@.len() + self.queue@.len() == all.len(),
                self.queue@ == all.skip(failed@.len() as int),
                failed@ == ids(all.take(failed@.len() as int)),
                self.completed == old(self).completed + failed@.len(),
                old(self).completed + all.len() <= u64::MAX,
            decreases self.queue@.len(),
        {
            let ghost done = failed@.len() as int;
            match self.queue.pop_front() {
                None => {},
                Some(job) => {
                    failed.push(job.task);
                    self.completed = self.completed + 1;
                    proof {
                        assert(self.queue@ =~= all.skip(done + 1));
                        assert(failed@ =~= ids(all.take(done + 1)));
                    }
                },
            }
        }
        proof {
            assert(all.take(all.len() as int) =~= all);
        }
        failed
    }

    fn settle(&mut self, worker: usize, recovery: Recovery) -> (failed: Vec<u64>)
        requires
            worker < old(self).workers@.len(),
            old(self).completed + old(self).queue@.len() <= u64::MAX,
            recovery != Recovery::Keep,
            recovery == Recovery::Retire <==> old(self).workers@[worker as int].state()
                == WorkerState::Retired,
        ensures
            final(self).workers@ == old(self).workers@,
            final(self).next_id == old(self).next_id,
            final(self).cursor == old(self).cursor,
            Self::flushed(old(self).queue@, final(self).queue@, final(self).workers@, failed@),
            final(self).completed == old(self).completed + failed@.len(),
            failed@.len() > 0 ==> failed@.len() == old(self).queue@.len(),
    {
        match recovery {
            Recovery::Retire => {
                if self.every_worker_retired() {
                    self.flush()
                } else {
                    Vec::new()
                }
            },
            _ => {
                assert(!all_retired(self.workers@));
                Vec::new()
            },
        }
    }

    /// Takes a task in unless the correlation ids are used up; then the
    /// request is handed back and nothing changes.
    pub fn try_submit(&mut self, request: Request) -> (r: Result<Submission, Request>)
        requires
            old(self).wf(),
        ensures
            final(self).wf(),
            final(self).size() == old(self).size(),
            match r {
                Ok(s) => {
                    &&& old(self).submitted() < u64::MAX
                    &&& final(self).submitted() == old(self).submitted() + 1
                    &&& Self::took(*old(self), *final(self), request, s)
                },
                Err(back) => {
                    &&& old(self).submitted() == u64::MAX
                    &&& back == request
                    &&& *final(self) == *old(self)
                },
            },
    {
        if self.next_id == u64::MAX {
            Err(request)
        } else {
            Ok(self.submit(request))
        }
    }

    /// Takes a batch of tasks in, one after the other, in their order. The
    /// tasks get consecutive correlation ids. Returns what became of each,
    /// and the batch that collects their results; a rejected task has its
    /// `WorkerCrashed` in the batch already.
    pub fn submit_batch(&mut self, requests: Vec<Request>) -> (r: (Batch, Vec<Submission>))
        requires
            old(self).wf(),
            old(self).submitted() + requests@.len() <= u64::MAX,
        ensures
            final(self).wf(),
            final(self).size() == old(self).size(),
            final(self).submitted() == old(self).submitted() + requests@.len(),
            r.0.wf(),
            r.0.first() == old(self).submitted(),
            r.0.size() == requests@.len(),
            r.1@.len() == requests@.len(),
            Self::took_all(*old(self), *final(self), requests@, r.1@),
            final(self).owes(r.0),
            forall|i: int|
                0 <= i < requests@.len() ==> (#[trigger] r.0.slots()[i]) == (if r.1@[i] is Rejected {
                    Some(Err::<String, EvaluationError>(EvaluationError::WorkerCrashed))
                } else {
                    None::<Result<String, EvaluationError>>
                }),
    {
        let first = self.next_id;
        let count = requests.len();
        let mut batch = Batch::new(first, count);
        let mut submissions: Vec<Submission> = Vec::new();
        let ghost mut chain: Seq<WorkerPool> = seq![*self];
        let ghost all = requests@;
        let mut rest = requests;
        let mut taken: usize = 0;
        while taken < count
            invariant
                self.wf(),
                self.size() == old(self).size(),
                taken <= count,
                count == all.len(),
                first == old(self).submitted(),
                first + count <= u64::MAX,
                self.submitted() == first + taken,
                rest@ == all.skip(taken as int),
                submissions@.len() == taken,
                chain.len() == taken + 1,
                chain[0] == *old(self),
                chain[taken as int] == *self,
                forall|i: int|
                    0 <= i < taken ==> Self::took(
                        #[trigger] chain[i],
                        chain[i + 1],
                        all[i],
                        submissions@[i],
                    ),
                batch.wf(),
                batch.first() == first,
                batch.size() == count,
                forall|i: int|
                    0 <= i < count ==> (self.holds((first + i) as u64) <==> i < taken && !(
                    #[trigger] submissions@[i] is Rejected)),
                forall|i: int|
                    0 <= i < count ==> (#[trigger] batch.slots()[i]) == (if i < taken
                        && submissions@[i] is Rejected {
                        Some(Err::<String, EvaluationError>(EvaluationError::WorkerCrashed))
                    } else {
                        None::<Result<String, EvaluationError>>
                    }),
            decreases count - taken,
        {
            let request = rest.remove(0);
            assert(request == all[taken as int]);
            assert(rest@ =~= all.skip(taken + 1));
            let ghost before = *self;
            let submission = self.submit(request);
            proof {
                lemma_submit_tracks(before, *self, request, submission);
            }
            match submission {
                Submission::Rejected { task } => {
                    let recorded = batch.record(task, Err(EvaluationError::WorkerCrashed));
                    assert(recorded is Ok);
                },
                _ => {},
            }
            submissions.push(submission);
            proof {
                chain = chain.push(*self);
            }
            taken = taken + 1;
        }
        proof {
            assert(Self::chained(chain, all, submissions@));
        }
        (batch, submissions)
    }

    /// Stops the pool. Every worker retires, and every task that is with a
    /// worker or in the queue fails with `WorkerCrashed`: the tasks of the
    /// workers in the order of the slots, then the waiting ones, oldest
    /// first. The caller closes the pipes of every subprocess. A stopped
    /// pool rejects every task.
    pub fn shutdown(&mut self) -> (failed: Vec<u64>)
        requires
            old(self).wf(),
        ensures
            final(self).wf(),
            final(self).size() == old(self).size(),
            final(self).submitted() == old(self).submitted(),
            final(self).completed() == old(self).submitted(),
            final(self).cursor() == old(self).cursor(),
            all_retired(final(self).workers()),
            final(self).idle(),
            forall|w: int|
                0 <= w < old(self).size() ==> (#[trigger] final(self).workers()[w]).respawns_left()
                    == old(self).workers()[w].respawns_left(),
            failed@ == in_flight(old(self).workers()) + ids(old(self).queued()),
            forall|t: u64| old(self).holds(t) ==> failed@.contains(t),
            forall|t: u64| !final(self).holds(t),
    {
        let mut failed: Vec<u64> = Vec::new();
        let n = self.workers.len();
        let mut i: usize = 0;
        assert(old(self).workers@.take(0) =~= Seq::<Evaluator>::empty());
        while i < n
            invariant
                i <= n,
                n == old(self).workers@.len(),
                self.workers@.len() == n,
                self.queue@ == old(self).queue@,
                self.next_id == old(self).next_id,
                self.cursor == old(self).cursor,
                old(self).wf(),
                failed@ == in_flight(old(self).workers@.take(i as int)),
                self.completed == old(self).completed + failed@.len(),
                busy_count(self.workers@) + failed@.len() == busy_count(old(self).workers@),
                forall|w: int|
                    0 <= w < i ==> (#[trigger] self.workers@[w]).state() == WorkerState::Retired,
                forall|w: int| i <= w < n ==> #[trigger] self.workers@[w] == old(self).workers@[w],
                forall|w: int|
                    0 <= w < n ==> (#[trigger] self.workers@[w]).respawns_left() == old(
                        self,
                    ).workers@[w].respawns_left(),
            decreases n - i,
        {
            let ghost before = self.workers@;
            let mut slot = self.workers[i];
            let lost = slot.retire();
            self.workers.set(i, slot);
            proof {
                lemma_busy_count_update(before, i as int, slot);
                assert(old(self).workers@.take(i + 1).drop_last() =~= old(self).workers@.take(
                    i as int,
                ));
            }
            match lost {
                Some(task) => {
                    failed.push(task);
                    self.completed = self.completed + 1;
                },
                None => {},
            }
            i = i + 1;
        }
        proof {
            assert(old(self).workers@.take(n as int) =~= old(self).workers@);
            lemma_retired_hold_nothing(self.workers@);
        }
        let mut waiting = self.flush();
        failed.append(&mut waiting);
        proof {
            let lost = in_flight(old(self).workers());
            let queued = ids(old(self).queued());
            assert forall|t: u64| old(self).holds(t) implies failed@.contains(t) by {
                if exists|w: int|
                    0 <= w < old(self).workers().len() && (#[trigger] old(self).workers()[w]).state()
                        == (WorkerState::Busy { task: t }) {
                    let w = choose|w: int|
                        0 <= w < old(self).workers().len() && (#[trigger] old(
                            self,
                        ).workers()[w]).state() == (WorkerState::Busy { task: t });
                    let at = lemma_in_flight_has(old(self).workers(), w);
                    assert(failed@[at] == t);
                } else {
                    let i = choose|i: int|
                        0 <= i < old(self).queued().len() && (#[trigger] old(self).queued()[i]).task
                            == t;
                    assert(queued[i] == t);
                    assert(failed@[lost.len() + i] == t);
                }
            }
            assert forall|t: u64| !self.holds(t) by {
                lemma_idle_pool_holds_nothing(*self, t);
            }
        }
        failed
    }

    /// Takes the outcome of the exchange that `worker` just had with its
    /// subprocess. The task it held finishes: with the reply's text, or
    /// with `WorkerCrashed` when the exchange failed in any way. After a
    /// good exchange the worker takes the oldest waiting job. After a
    /// failed one it respawns or retires; when that retires the last
    /// worker, every waiting task fails too. Returns `None`, and changes
    /// nothing, when `worker` is no slot of the pool or holds no task.
    pub fn complete(&mut self, worker: usize, exchange: Exchange) -> (r: Option<Step>)
        requires
            old(self).wf(),
        ensures
            final(self).wf(),
            final(self).size() == old(self).size(),
            final(self).submitted() == old(self).submitted(),
            final(self).cursor() == old(self).cursor(),
            r is None <==> !(worker < old(self).size() && old(self).workers()[worker as int].state()
                is Busy),
            r is None ==> final(self).workers() == old(self).workers() && final(self).queued()
                == old(self).queued() && final(self).completed() == old(self).completed(),
            r matches Some(step) ==> Self::finished_exchange(
                *old(self),
                *final(self),
                worker as int,
                exchange_outcome(exchange),
                step,
            ),
    {
        if worker >= self.workers.len() {
            return None;
        }
        let ghost before = self.workers@;
        let mut slot = self.workers[worker];
        let task = match slot.current_state() {
            WorkerState::Busy { task } => task,
            _ => {
                return None;
            },
        };
        match evaluate(&mut slot, exchange) {
            None => None,
            Some((result, recovery)) => {
                self.workers.set(worker, slot);
                proof {
                    lemma_busy_count_update(before, worker as int, slot);
                }
                self.completed = self.completed + 1;
                match result {
                    Ok(text) => {
                        let dispatch = self.resume(worker);
                        Some(
                            Step {
                                finished: Some((task, Ok(text))),
                                failed: Vec::new(),
                                recovery,
                                dispatch,
                            },
                        )
                    },
                    Err(_) => {
                        let failed = self.settle(worker, recovery);
                        Some(
                            Step {
                                finished: Some((task, Err(EvaluationError::WorkerCrashed))),
                                failed,
                                recovery,
                                dispatch: None,
                            },
                        )
                    },
                }
            },
        }
    }

    /// What is left of a step after a batch took in what it waited for:
    /// the step itself, without the finished task if that was the batch's.
    pub open spec fn left_over(full: Step, rest: Step, batch: Batch) -> bool {
        &&& rest.failed == full.failed
        &&& rest.recovery == full.recovery
        &&& rest.dispatch == full.dispatch
        &&& rest.finished == if full.finished matches Some(pair) && batch.waits_for(pair.0) {
            None
        } else {
            full.finished
        }
    }

    /// Takes the outcome of an exchange, as `complete` does, and lets the
    /// batch take in what the step reports. The pool goes on owing the
    /// batch exactly the results that the batch misses.
    pub fn complete_for(&mut self, batch: &mut Batch, worker: usize, exchange: Exchange) -> (r:
        Option<Step>)
        requires
            old(self).wf(),
            old(batch).wf(),
            old(self).owes(*old(batch)),
        ensures
            final(self).wf(),
            final(batch).wf(),
            final(self).owes(*final(batch)),
            final(self).size() == old(self).size(),
            final(self).submitted() == old(self).submitted(),
            final(batch).first() == old(batch).first(),
            final(batch).size() == old(batch).size(),
            r is None <==> !(worker < old(self).size() && old(self).workers()[worker as int].state()
                is Busy),
            r is None ==> *final(batch) == *old(batch) && final(self).workers() == old(
                self,
            ).workers() && final(self).queued() == old(self).queued(),
            r matches Some(rest) ==> exists|full: Step|
                {
                    &&& #[trigger] Self::finished_exchange(
                        *old(self),
                        *final(self),
                        worker as int,
                        exchange_outcome(exchange),
                        full,
                    )
                    &&& final(batch).slots() == taken_in(
                        old(batch).slots(),
                        old(batch).first(),
                        full.finished,
                        full.failed@,
                    )
                    &&& Self::left_over(full, rest, *old(batch))
                },
    {
        let ghost before = *self;
        match self.complete(worker, exchange) {
            None => None,
            Some(full) => {
                let ghost whole = full;
                let Step { finished, failed, recovery, dispatch } = full;
                let rest = batch.absorb(finished, &failed);
                proof {
                    lemma_batch_follows_exchange(
                        before,
                        *self,
                        worker as int,
                        exchange_outcome(exchange),
                        whole,
                        *old(batch),
                        *batch,
                    );
                }
                let left = Step { finished: rest, failed, recovery, dispatch };
                assert(Self::left_over(whole, left, *old(batch)));
                Some(left)
            },
        }
    }

    /// Takes the outcome of a respawn attempt, as `respawned` does, and
    /// lets the batch take in what the step reports. The pool goes on
    /// owing the batch exactly the results that the batch misses.
    pub fn respawned_for(&mut self, batch: &mut Batch, worker: usize, started: bool) -> (r: Option<
        Step,
    >)
        requires
            old(self).wf(),
            old(batch).wf(),
            old(self).owes(*old(batch)),
        ensures
            final(self).wf(),
            final(batch).wf(),
            final(self).owes(*final(batch)),
            final(self).size() == old(self).size(),
            final(self).submitted() == old(self).submitted(),
            final(batch).first() == old(batch).first(),
            final(batch).size() == old(batch).size(),
            r is None <==> !(worker < old(self).size() && old(self).workers()[worker as int].state()
                == WorkerState::Respawning),
            r is None ==> *final(batch) == *old(batch) && final(self).workers() == old(
                self,
            ).workers() && final(self).queued() == old(self).queued(),
            r matches Some(step) ==> Self::finished_respawn(
                *old(self),
                *final(self),
                worker as int,
                started,
                step,
            ) && final(batch).slots() == taken_in(
                old(batch).slots(),
                old(batch).first(),
                step.finished,
                step.failed@,
            ),
    {
        let ghost before = *self;
        match self.respawned(worker, started) {
            None => None,
            Some(step) => {
                let _ = batch.absorb(None, &step.failed);
                proof {
                    lemma_batch_follows_respawn(
                        before,
                        *self,
                        worker as int,
                        started,
                        step,
                        *old(batch),
                        *batch,
                    );
                }
                Some(step)
            },
        }
    }

    /// Takes the outcome of the attempt to start a new subprocess for
    /// `worker`. A started worker takes the oldest waiting job. One that
    /// did not start tries again or retires, as after a lost subprocess.
    /// Returns `None`, and changes nothing, when `worker` is no slot of
    /// the pool or is not respawning.
    pub fn respawned(&mut self, worker: usize, started: bool) -> (r: Option<Step>)
        requires
            old(self).wf(),
        ensures
            final(self).wf(),
            final(self).size() == old(self).size(),
            final(self).submitted() == old(self).submitted(),
            final(self).cursor() == old(self).cursor(),
            r is None <==> !(worker < old(self).size() && old(self).workers()[worker as int].state()
                == WorkerState::Respawning),
            r is None ==> final(self).workers() == old(self).workers() && final(self).queued()
                == old(self).queued() && final(self).completed() == old(self).completed(),
            r matches Some(step) ==> Self::finished_respawn(
                *old(self),
                *final(self),
                worker as int,
                started,
                step,
            ),
    {
        if worker >= self.workers.len() {
            return None;
        }
        let ghost before = self.workers@;
        let mut slot = self.workers[worker];
        match slot.current_state() {
            WorkerState::Respawning => {},
            _ => {
                return None;
            },
        }
        let recovery = slot.respawned(started);
        self.workers.set(worker, slot);
        proof {
            lemma_busy_count_update(before, worker as int, slot);
        }
        if started {
            let dispatch = self.resume(worker);
            Some(Step { finished: None, failed: Vec::new(), recovery, dispatch })
        } else {
            let failed = self.settle(worker, recovery);
            Some(Step { finished: None, failed, recovery, dispatch: None })
        }
    }
}

/// Every submitted task is accounted for: a pool with nothing in flight and
/// nothing waiting has given a result for each task it took in.
pub proof fn lemma_idle_pool_answered_all(pool: WorkerPool)
    requires
        pool.wf(),
        pool.idle(),
    ensures
        pool.completed() == pool.submitted(),
{
}

/// A task that is taken in gets an id that no task in the pool has. Unless
/// it is rejected the pool holds it from then on, and it holds every other
/// task exactly as before.
pub proof fn lemma_submit_tracks(pre: WorkerPool, post: WorkerPool, request: Request, s: Submission)
    requires
        pre.wf(),
        pre.submitted() < u64::MAX,
        WorkerPool::took(pre, post, request, s),
    ensures
        !pre.holds(pre.submitted() as u64),
        post.holds(pre.submitted() as u64) == !(s is Rejected),
        forall|t: u64| t != pre.submitted() ==> post.holds(t) == pre.holds(t),
{
    let id = pre.submitted() as u64;
    match s {
        Submission::Dispatch { worker, job } => {
            assert(post.workers()[worker as int].state() == (WorkerState::Busy { task: id }));
            assert forall|t: u64| t != id implies post.holds(t) == pre.holds(t) by {
                if pre.holds(t) {
                    if exists|w: int|
                        0 <= w < pre.workers().len() && (#[trigger] pre.workers()[w]).state() == (
                        WorkerState::Busy { task: t }) {
                        let w = choose|w: int|
                            0 <= w < pre.workers().len() && (#[trigger] pre.workers()[w]).state()
                                == (WorkerState::Busy { task: t });
                        assert(post.workers()[w].state() == (WorkerState::Busy { task: t }));
                    }
                }
                if post.holds(t) {
                    if exists|w: int|
                        0 <= w < post.workers().len() && (#[trigger] post.workers()[w]).state() == (
                        WorkerState::Busy { task: t }) {
                        let w = choose|w: int|
                            0 <= w < post.workers().len() && (#[trigger] post.workers()[w]).state()
                                == (WorkerState::Busy { task: t });
                        assert(pre.workers()[w].state() == (WorkerState::Busy { task: t }));
                    }
                }
            }
        },
        Submission::Queued { task } => {
            let last = pre.queued().len() as int;
            assert(post.queued()[last].task == id);
            assert forall|t: u64| t != id implies post.holds(t) == pre.holds(t) by {
                if exists|i: int| 0 <= i < pre.queued().len() && (#[trigger] pre.queued()[i]).task == t {
                    let i = choose|i: int|
                        0 <= i < pre.queued().len() && (#[trigger] pre.queued()[i]).task == t;
                    assert(post.queued()[i].task == t);
                }
                if exists|i: int|
                    0 <= i < post.queued().len() && (#[trigger] post.queued()[i]).task == t {
                    let i = choose|i: int|
                        0 <= i < post.queued().len() && (#[trigger] post.queued()[i]).task == t;
                    assert(pre.queued()[i].task == t);
                }
            }
        },
        Submission::Rejected { task } => {},
    }
}

/// Each task gets its result once. The task that a finished exchange
/// reports was held by the pool and is not held afterwards, and the same
/// goes for every waiting task that fails with it; every other task is
/// held exactly as before.
pub proof fn lemma_exchange_answers_once(
    pre: WorkerPool,
    post: WorkerPool,
    worker: int,
    outcome: Result<Seq<char>, EvaluationError>,
    step: Step,
)
    requires
        pre.wf(),
        0 <= worker < pre.size(),
        WorkerPool::finished_exchange(pre, post, worker, outcome, step),
    ensures
        step.finished matches Some((task, _)) && pre.holds(task) && !post.holds(task),
        forall|k: int|
            0 <= k < step.failed@.len() ==> pre.holds(#[trigger] step.failed@[k]) && !post.holds(
                step.failed@[k],
            ),
        forall|t: u64|
            t != step.finished_task() && !step.failed@.contains(t) ==> post.holds(t) == pre.holds(t),
{
    let task = step.finished_task();
    assert(pre.workers()[worker].state() == (WorkerState::Busy { task }));
    lemma_step_tracks(pre, post, worker, step.failed@, step.dispatch);
    assert(!post.holds(task)) by {
        if exists|w: int|
            0 <= w < post.workers().len() && (#[trigger] post.workers()[w]).state() == (
            WorkerState::Busy { task }) {
            let w = choose|w: int|
                0 <= w < post.workers().len() && (#[trigger] post.workers()[w]).state() == (
                WorkerState::Busy { task });
            if w != worker {
                assert(pre.workers()[w].state() == (WorkerState::Busy { task }));
            } else {
                assert(pre.queued()[0].task == task);
            }
        }
        if exists|i: int| 0 <= i < post.queued().len() && (#[trigger] post.queued()[i]).task == task {
            let i = choose|i: int|
                0 <= i < post.queued().len() && (#[trigger] post.queued()[i]).task == task;
            if post.queued() == pre.queued() {
                assert(pre.queued()[i].task == task);
            } else {
                assert(pre.queued()[i + 1].task == task);
            }
        }
    }
}

/// What a step does to the tasks other than the one the worker held: the
/// failed ones leave the pool, the others stay where they are or move from
/// the queue to the worker.
proof fn lemma_step_tracks(
    pre: WorkerPool,
    post: WorkerPool,
    worker: int,
    failed: Seq<u64>,
    dispatch: Option<Job>,
)
    requires
        pre.wf(),
        0 <= worker < pre.size(),
        WorkerPool::others_kept(pre.workers(), post.workers(), worker),
        ({
            ||| WorkerPool::resumed(pre.queued(), post.queued(), post.workers()[worker], dispatch)
                && failed.len() == 0
            ||| !(post.workers()[worker].state() is Busy) && post.workers()[worker].state()
                != WorkerState::Ready && WorkerPool::flushed(
                pre.queued(),
                post.queued(),
                post.workers(),
                failed,
            )
        }),
    ensures
        forall|k: int|
            0 <= k < failed.len() ==> pre.holds(#[trigger] failed[k]) && !post.holds(failed[k]),
        forall|t: u64|
            !(pre.workers()[worker].state() is Busy && pre.workers()[worker].state()->task == t)
                && !failed.contains(t) ==> post.holds(t) == pre.holds(t),
{
    assert forall|k: int| 0 <= k < failed.len() implies pre.holds(#[trigger] failed[k])
        && !post.holds(failed[k]) by {
        assert(failed == ids(pre.queued()));
        assert(pre.queued()[k].task == failed[k]);
        assert(all_retired(post.workers()));
        assert forall|w: int| 0 <= w < post.workers().len() implies !((
        #[trigger] post.workers()[w]).state() is Busy) by {}
    }
    assert forall|t: u64|
        !(pre.workers()[worker].state() is Busy && pre.workers()[worker].state()->task == t)
            && !failed.contains(t) implies post.holds(t) == pre.holds(t) by {
        if exists|w: int|
            0 <= w < pre.workers().len() && (#[trigger] pre.workers()[w]).state() == (
            WorkerState::Busy { task: t }) {
            let w = choose|w: int|
                0 <= w < pre.workers().len() && (#[trigger] pre.workers()[w]).state() == (
                WorkerState::Busy { task: t });
            assert(w != worker);
            assert(post.workers()[w].state() == (WorkerState::Busy { task: t }));
        }
        if exists|i: int| 0 <= i < pre.queued().len() && (#[trigger] pre.queued()[i]).task == t {
            let i = choose|i: int|
                0 <= i < pre.queued().len() && (#[trigger] pre.queued()[i]).task == t;
            if failed.len() > 0 {
                assert(failed[i] == t);
            } else if post.queued() == pre.queued() {
                assert(post.queued()[i].task == t);
                if all_retired(post.workers()) {
                    assert(failed == ids(pre.queued()));
                }
            } else if i == 0 {
                assert(post.workers()[worker].state() == (WorkerState::Busy { task: t }));
            } else {
                assert(post.queued()[i - 1].task == t);
            }
        }
        if exists|w: int|
            0 <= w < post.workers().len() && (#[trigger] post.workers()[w]).state() == (
            WorkerState::Busy { task: t }) {
            let w = choose|w: int|
                0 <= w < post.workers().len() && (#[trigger] post.workers()[w]).state() == (
                WorkerState::Busy { task: t });
            if w != worker {
                assert(pre.workers()[w].state() == (WorkerState::Busy { task: t }));
            } else {
                assert(pre.queued()[0].task == t);
            }
        }
        if exists|i: int| 0 <= i < post.queued().len() && (#[trigger] post.queued()[i]).task == t {
            let i = choose|i: int|
                0 <= i < post.queued().len() && (#[trigger] post.queued()[i]).task == t;
            if post.queued() == pre.queued() {
                assert(pre.queued()[i].task == t);
            } else {
                assert(pre.queued()[i + 1].task == t);
            }
        }
    }
}

/// The end of a respawn attempt gives no task a result but the waiting
/// ones that fail with it: those were held by the pool and are not held
/// afterwards, and every other task is held exactly as before.
pub proof fn lemma_respawn_answers_once(
    pre: WorkerPool,
    post: WorkerPool,
    worker: int,
    started: bool,
    step: Step,
)
    requires
        pre.wf(),
        0 <= worker < pre.size(),
        pre.workers()[worker].state() == WorkerState::Respawning,
        WorkerPool::finished_respawn(pre, post, worker, started, step),
    ensures
        step.finished is None,
        forall|k: int|
            0 <= k < step.failed@.len() ==> pre.holds(#[trigger] step.failed@[k]) && !post.holds(
                step.failed@[k],
            ),
        forall|t: u64| !step.failed@.contains(t) ==> post.holds(t) == pre.holds(t),
{
    lemma_step_tracks(pre, post, worker, step.failed@, step.dispatch);
}

/// A pool with nothing in flight and nothing waiting holds no task.
pub proof fn lemma_idle_pool_holds_nothing(pool: WorkerPool, task: u64)
    requires
        pool.idle(),
    ensures
        !pool.holds(task),
{
    if exists|w: int|
        0 <= w < pool.workers().len() && (#[trigger] pool.workers()[w]).state() == (
        WorkerState::Busy { task }) {
        let w = choose|w: int|
            0 <= w < pool.workers().len() && (#[trigger] pool.workers()[w]).state() == (
            WorkerState::Busy { task });
        lemma_busy_worker_counts(pool.workers(), w);
    }
}

/// The task of a busy worker is among the tasks in flight; the result is
/// its place there.
pub proof fn lemma_in_flight_has(workers: Seq<Evaluator>, w: int) -> (at: int)
    requires
        0 <= w < workers.len(),
        workers[w].state() is Busy,
    ensures
        0 <= at < in_flight(workers).len(),
        in_flight(workers)[at] == workers[w].state()->task,
    decreases workers.len(),
{
    if w == workers.len() - 1 {
        in_flight(workers).len() - 1
    } else {
        lemma_in_flight_has(workers.drop_last(), w)
    }
}

/// A worker that holds a task is counted among the busy ones.
pub proof fn lemma_busy_worker_counts(workers: Seq<Evaluator>, w: int)
    requires
        0 <= w < workers.len(),
        workers[w].state() is Busy,
    ensures
        busy_count(workers) >= 1,
    decreases workers.len(),
{
    if w < workers.len() - 1 {
        lemma_busy_worker_counts(workers.drop_last(), w);
    }
}

/// The pool goes on owing a batch exactly what the batch misses when an
/// exchange finishes and the batch takes in what the step reports.
pub proof fn lemma_batch_follows_exchange(
    pre: WorkerPool,
    post: WorkerPool,
    worker: int,
    outcome: Result<Seq<char>, EvaluationError>,
    step: Step,
    batch: Batch,
    after: Batch,
)
    requires
        pre.wf(),
        0 <= worker < pre.size(),
        WorkerPool::finished_exchange(pre, post, worker, outcome, step),
        post.submitted() == pre.submitted(),
        pre.owes(batch),
        after.first() == batch.first(),
        after.slots() == taken_in(batch.slots(), batch.first(), step.finished, step.failed@),
    ensures
        post.owes(after),
{
    lemma_exchange_answers_once(pre, post, worker, outcome, step);
    let task = step.finished_task();
    assert forall|i: int| 0 <= i < after.size() implies ((#[trigger] after.slots()[i]) is None
        <==> post.holds((after.first() + i) as u64)) by {
        let id = (batch.first() + i) as u64;
        assert(batch.slots()[i] is None <==> pre.holds(id));
        if step.failed@.contains(id) {
            let k = choose|k: int| 0 <= k < step.failed@.len() && step.failed@[k] == id;
            assert(pre.holds(step.failed@[k]) && !post.holds(step.failed@[k]));
        }
    }
}

/// The pool goes on owing a batch exactly what the batch misses when a
/// respawn attempt ends and the batch takes in what the step reports.
pub proof fn lemma_batch_follows_respawn(
    pre: WorkerPool,
    post: WorkerPool,
    worker: int,
    started: bool,
    step: Step,
    batch: Batch,
    after: Batch,
)
    requires
        pre.wf(),
        0 <= worker < pre.size(),
        pre.workers()[worker].state() == WorkerState::Respawning,
        WorkerPool::finished_respawn(pre, post, worker, started, step),
        post.submitted() == pre.submitted(),
        pre.owes(batch),
        after.first() == batch.first(),
        after.slots() == taken_in(batch.slots(), batch.first(), step.finished, step.failed@),
    ensures
        post.owes(after),
{
    lemma_respawn_answers_once(pre, post, worker, started, step);
    assert forall|i: int| 0 <= i < after.size() implies ((#[trigger] after.slots()[i]) is None
        <==> post.holds((after.first() + i) as u64)) by {
        let id = (batch.first() + i) as u64;
        assert(batch.slots()[i] is None <==> pre.holds(id));
        if step.failed@.contains(id) {
            let k = choose|k: int| 0 <= k < step.failed@.len() && step.failed@[k] == id;
            assert(pre.holds(step.failed@[k]) && !post.holds(step.failed@[k]));
        }
    }
}

/// The pool goes on owing a batch exactly what the batch misses when it
/// takes another task in.
pub proof fn lemma_batch_follows_submit(
    pre: WorkerPool,
    post: WorkerPool,
    request: Request,
    s: Submission,
    batch: Batch,
)
    requires
        pre.wf(),
        pre.submitted() < u64::MAX,
        WorkerPool::took(pre, post, request, s),
        post.submitted() == pre.submitted() + 1,
        pre.owes(batch),
    ensures
        post.owes(batch),
{
    lemma_submit_tracks(pre, post, request, s);
    assert forall|i: int| 0 <= i < batch.size() implies ((#[trigger] batch.slots()[i]) is None
        <==> post.holds((batch.first() + i) as u64)) by {
        let id = (batch.first() + i) as u64;
        assert(batch.slots()[i] is None <==> pre.holds(id));
    }
}

/// No result is lost and none comes twice: a batch that the pool owes
/// nothing more is complete. So a batch of K tasks has all its K results,
/// each in the slot of its own task, as soon as the pool holds none of its
/// tasks, whatever the number of workers and the order in which they
/// finished; and while a result is missing, the pool still holds its task.
pub proof fn lemma_owed_batch_completes(pool: WorkerPool, batch: Batch)
    requires
        pool.owes(batch),
        forall|t: u64|
            batch.first() <= t < batch.first() + batch.size() ==> !(#[trigger] pool.holds(t)),
    ensures
        batch.complete(),
{
    assert forall|i: int| 0 <= i < batch.size() implies (#[trigger] batch.slots()[i]) is Some by {
        assert(!pool.holds((batch.first() + i) as u64));
    }
}

/// A batch is complete when the pool that owed it its results is idle.
pub proof fn lemma_idle_pool_completes_batch(pool: WorkerPool, batch: Batch)
    requires
        pool.owes(batch),
        pool.idle(),
    ensures
        batch.complete(),
{
    assert forall|t: u64| batch.first() <= t < batch.first() + batch.size() implies !(
    #[trigger] pool.holds(t)) by {
        lemma_idle_pool_holds_nothing(pool, t);
    }
    lemma_owed_batch_completes(pool, batch);
}

/// A lost subprocess is contained. The task that the worker held fails
/// with `WorkerCrashed`. While the worker has a respawn left, or another
/// worker is not retired, the pool goes on serving: the next task that is
/// submitted is not rejected.
pub proof fn lemma_crash_is_contained(
    pre: WorkerPool,
    mid: WorkerPool,
    post: WorkerPool,
    worker: int,
    outcome: Result<Seq<char>, EvaluationError>,
    step: Step,
    request: Request,
    s: Submission,
)
    requires
        pre.wf(),
        0 <= worker < pre.size(),
        outcome is Err,
        WorkerPool::finished_exchange(pre, mid, worker, outcome, step),
        WorkerPool::took(mid, post, request, s),
        pre.workers()[worker].respawns_left() > 0 || exists|o: int|
            0 <= o < pre.size() && o != worker && (#[trigger] pre.workers()[o]).state()
                != WorkerState::Retired,
    ensures
        step.finished matches Some((task, result)) && pre.workers()[worker].state() == (
        WorkerState::Busy { task }) && result == Err::<String, EvaluationError>(
            EvaluationError::WorkerCrashed,
        ),
        !(s is Rejected),
{
    if pre.workers()[worker].respawns_left() > 0 {
        assert(mid.workers()[worker].state() == WorkerState::Respawning);
    } else {
        let o = choose|o: int|
            0 <= o < pre.size() && o != worker && (#[trigger] pre.workers()[o]).state()
                != WorkerState::Retired;
        assert(mid.workers()[o] == pre.workers()[o]);
    }
}

/// Retired workers hold no task.
pub proof fn lemma_retired_hold_nothing(workers: Seq<Evaluator>)
    requires
        all_retired(workers),
    ensures
        busy_count(workers) == 0,
    decreases workers.len(),
{
    if workers.len() > 0 {
        assert(workers.last() == workers[workers.len() - 1]);
        assert forall|w: int| 0 <= w < workers.drop_last().len() implies (
        #[trigger] workers.drop_last()[w]).state() == WorkerState::Retired by {
            assert(workers[w].state() == WorkerState::Retired);
        }
        lemma_retired_hold_nothing(workers.drop_last());
    }
}

/// Replacing one worker changes the number of busy workers by what that
/// worker adds or takes away.
pub proof fn lemma_busy_count_update(workers: Seq<Evaluator>, w: int, worker: Evaluator)
    requires
        0 <= w < workers.len(),
    ensures
        busy_count(workers.update(w, worker)) + (if workers[w].state() is Busy {
            1nat
        } else {
            0nat
        }) == busy_count(workers) + (if worker.state() is Busy {
            1nat
        } else {
            0nat
        }),
    decreases workers.len(),
{
    let updated = workers.update(w, worker);
    if w == workers.len() - 1 {
        assert(updated.drop_last() =~= workers.drop_last());
    } else {
        lemma_busy_count_update(workers.drop_last(), w, worker);
        assert(updated.drop_last() =~= workers.drop_last().update(w, worker));
    }
}

} // verus!
