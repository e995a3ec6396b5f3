//! Collecting the results of a batch of tasks by correlation id, so that
//! they come out in the order in which the tasks went in whatever the
//! order in which the workers finished.

use crate::protocol::EvaluationError;
use vstd::prelude::*;

verus! {

/// Why a result was not recorded.
#[derive(Clone, Copy, Debug, PartialEq, Eq, Structural)]
pub enum BatchError {
    /// The correlation id is none of the batch's.
    UnknownTask,
    /// The task has its result already.
    DuplicateResult,
}

/// How many slots are still empty.
pub open spec fn empty_count(slots: Seq<Option<Result<String, EvaluationError>>>) -> nat
    decreases slots.len(),
{
    if slots.len() == 0 {
        0
    } else {
        empty_count(slots.drop_last()) + if slots.last() is None {
            1nat
        } else {
            0nat
        }
    }
}

/// The slots of a batch after it took in what a step of the pool reported:
/// a slot that was filled stays as it was; an empty one takes the result
/// of the finished task if that is its task, `WorkerCrashed` if its task is
/// among the failed ones, and stays empty otherwise.
pub open spec fn taken_in(
    slots: Seq<Option<Result<String, EvaluationError>>>,
    first: u64,
    finished: Option<(u64, Result<String, EvaluationError>)>,
    failed: Seq<u64>,
) -> Seq<Option<Result<String, EvaluationError>>> {
    Seq::new(
        slots.len(),
        |i: int|
            if slots[i] is Some {
                slots[i]
            } else if finished matches Some(pair) && pair.0 == first + i {
                match finished {
                    Some((_, result)) => Some(result),
                    None => None,
                }
            } else if first + i <= u64::MAX && failed.contains((first + i) as u64) {
                Some(Err(EvaluationError::WorkerCrashed))
            } else {
                None
            },
    )
}

/// The results of a batch of tasks with consecutive correlation ids, one
/// slot for each task.
pub struct Batch {
    first: u64,
    slots: Vec<Option<Result<String, EvaluationError>>>,
    missing: usize,
}

impl Batch {
    /// The correlation id of the batch's first task.
    pub closed spec fn first(&self) -> u64 {
        self.first
    }

    /// The results recorded so far, by position in the batch.
    pub closed spec fn slots(&self) -> Seq<Option<Result<String, EvaluationError>>> {
        self.slots@
    }

    /// The batch's invariant: the count of missing results is right.
    pub closed spec fn wf(&self) -> bool {
        self.missing == empty_count(self.slots@)
    }

    /// How many tasks the batch has.
    pub open spec fn size(&self) -> nat {
        self.slots().len()
    }

    /// The position in the batch of the task with this correlation id.
    pub open spec fn position(&self, task: u64) -> Option<int> {
        if self.first() <= task && task - self.first() < self.size() {
            Some(task - self.first())
        } else {
            None
        }
    }

    /// Whether every task has its result.
    pub open spec fn complete(&self) -> bool {
        forall|i: int| 0 <= i < self.size() ==> (#[trigger] self.slots()[i]) is Some
    }

    /// An empty batch for the tasks `first`, `first + 1`, ... , `size` of
    /// them.
    pub fn new(first: u64, size: usize) -> (batch: Batch)
        ensures
            batch.wf(),
            batch.first() == first,
            batch.size() == size,
            empty_count(batch.slots()) == size,
            forall|i: int| 0 <= i < size ==> (#[trigger] batch.slots()[i]) is None,
    {
        let mut slots: Vec<Option<Result<String, EvaluationError>>> = Vec::new();
        let mut i: usize = 0;
        while i < size
            invariant
                i <= size,
                slots@.len() == i,
                empty_count(slots@) == i,
                forall|k: int| 0 <= k < i ==> (#[trigger] slots@[k]) is None,
            decreases size - i,
        {
            let ghost before = slots@;
            slots.push(None);
            assert(slots@.drop_last() =~= before);
            i = i + 1;
        }
        Batch { first, slots, missing: size }
    }

    /// How many results are missing.
    pub fn missing(&self) -> (n: usize)
        requires
            self.wf(),
        ensures
            n == empty_count(self.slots()),
            n == 0 <==> self.complete(),
    {
        proof {
            lemma_empty_count_zero(self.slots@);
        }
        self.missing
    }

    /// Records the result of one task. A result for a task outside the
    /// batch, or a second result for a task, is turned away and changes
    /// nothing.
    pub fn record(&mut self, task: u64, result: Result<String, EvaluationError>) -> (r: Result<
        (),
        BatchError,
    >)
        requires
            old(self).wf(),
        ensures
            final(self).wf(),
            final(self).first() == old(self).first(),
            final(self).size() == old(self).size(),
            empty_count(final(self).slots()) + (if r is Ok {
                1nat
            } else {
                0nat
            }) == empty_count(old(self).slots()),
            match old(self).position(task) {
                None => r == Err::<(), BatchError>(BatchError::UnknownTask) && final(self).slots()
                    == old(self).slots(),
                Some(at) => if old(self).slots()[at] is Some {
                    r == Err::<(), BatchError>(BatchError::DuplicateResult) && final(self).slots()
                        == old(self).slots()
                } else {
                    r is Ok && final(self).slots() == old(self).slots().update(at, Some(result))
                },
            },
    {
        if task < self.first {
            return Err(BatchError::UnknownTask);
        }
        let offset = task - self.first;
        if offset >= self.slots.len() as u64 {
            return Err(BatchError::UnknownTask);
        }
        let at = offset as usize;
        if self.slots[at].is_some() {
            return Err(BatchError::DuplicateResult);
        }
        proof {
            lemma_empty_count_update(self.slots@, at as int, Some(result));
        }
        self.slots.set(at, Some(result));
        self.missing = self.missing - 1;
        Ok(())
    }

    /// Whether `task` is one of the batch's and its result is missing.
    pub open spec fn waits_for(&self, task: u64) -> bool {
        self.position(task) matches Some(at) && self.slots()[at] is None
    }

    /// Whether `task` is one of the batch's and its result is missing.
    pub fn expects(&self, task: u64) -> (b: bool)
        ensures
            b == self.waits_for(task),
    {
        if task < self.first {
            return false;
        }
        let offset = task - self.first;
        if offset >= self.slots.len() as u64 {
            return false;
        }
        self.slots[offset as usize].is_none()
    }

    /// Takes in what one step of the pool reported: the result of the
    /// finished task, and `WorkerCrashed` for each failed task, as far as
    /// the batch waits for them. Hands the finished task back when it is
    /// none that the batch waits for.
    pub fn absorb(
        &mut self,
        finished: Option<(u64, Result<String, EvaluationError>)>,
        failed: &Vec<u64>,
    ) -> (rest: Option<(u64, Result<String, EvaluationError>)>)
        requires
            old(self).wf(),
        ensures
            final(self).wf(),
            final(self).first() == old(self).first(),
            final(self).size() == old(self).size(),
            final(self).slots() == taken_in(
                old(self).slots(),
                old(self).first(),
                finished,
                failed@,
            ),
            rest == if finished matches Some(pair) && old(self).waits_for(pair.0) {
                None
            } else {
                finished
            },
    {
        let ghost start = self.slots();
        let ghost first = self.first();
        let ghost none = Seq::<u64>::empty();
        let rest = match finished {
            Some((task, result)) => {
                if self.expects(task) {
                    let _ = self.record(task, result);
                    None
                } else {
                    Some((task, result))
                }
            },
            None => None,
        };
        assert(self.slots() =~= taken_in(start, first, finished, none));
        let mut k: usize = 0;
        assert(failed@.take(0) =~= none);
        while k < failed.len()
            invariant
                k <= failed@.len(),
                self.wf(),
                self.first() == first,
                self.slots().len() == start.len(),
                start == old(self).slots(),
                first == old(self).first(),
                self.slots() == taken_in(start, first, finished, failed@.take(k as int)),
            decreases failed@.len() - k,
        {
            let task = failed[k];
            let ghost sofar = failed@.take(k as int);
            let ghost next = failed@.take(k + 1);
            let ghost had = self.slots();
            assert(next =~= sofar.push(task));
            if self.expects(task) {
                let _ = self.record(task, Err(EvaluationError::WorkerCrashed));
            }
            proof {
                assert forall|i: int| 0 <= i < start.len() implies self.slots()[i] == taken_in(
                    start,
                    first,
                    finished,
                    next,
                )[i] by {
                    assert(had[i] == taken_in(start, first, finished, sofar)[i]);
                    if first + i <= u64::MAX {
                        let id = (first + i) as u64;
                        if sofar.contains(id) {
                            let m = choose|m: int| 0 <= m < sofar.len() && sofar[m] == id;
                            assert(next[m] == id);
                        }
                        if next.contains(id) && id != task {
                            let m = choose|m: int| 0 <= m < next.len() && next[m] == id;
                            assert(sofar[m] == id);
                        }
                        if id == task {
                            assert(next[k as int] == id);
                        }
                    }
                }
                assert(self.slots() =~= taken_in(start, first, finished, next));
            }
            k = k + 1;
        }
        assert(failed@.take(failed@.len() as int) =~= failed@);
        rest
    }

    /// Closes the batch. A complete batch gives its results in the order
    /// of the tasks: result `i` is that of the task `first + i`. A batch
    /// that still misses a result is handed back as it is.
    pub fn finish(self) -> (r: Result<Vec<Result<String, EvaluationError>>, Batch>)
        requires
            self.wf(),
        ensures
            match r {
                Ok(results) => self.complete() && results@.len() == self.size() && forall|i: int|
                    0 <= i < self.size() ==> self.slots()[i] == Some(#[trigger] results@[i]),
                Err(batch) => !self.complete() && batch == self,
            },
    {
        proof {
            lemma_empty_count_zero(self.slots@);
        }
        if self.missing != 0 {
            return Err(self);
        }
        let ghost all = self.slots@;
        let mut slots = self.slots;
        let mut results: Vec<Result<String, EvaluationError>> = Vec::new();
        let mut i: usize = 0;
        while i < slots.len()
            invariant
                i <= slots@.len(),
                slots@.len() == all.len(),
                results@.len() == i,
                forall|k: int| 0 <= k < all.len() ==> (#[trigger] all[k]) is Some,
                forall|k: int| i <= k < all.len() ==> slots@[k] == all[k],
                forall|k: int| 0 <= k < i ==> all[k] == Some(#[trigger] results@[k]),
            decreases slots@.len() - i,
        {
            assert(all[i as int] is Some && slots@[i as int] == all[i as int]);
            let item = slots[i].take();
            match item {
                Some(result) => {
                    results.push(result);
                },
                None => {},
            }
            i = i + 1;
        }
        Ok(results)
    }
}

/// Filling or emptying one slot changes the count of empty slots by what
/// that slot adds or takes away.
pub proof fn lemma_empty_count_update(
    slots: Seq<Option<Result<String, EvaluationError>>>,
    at: int,
    value: Option<Result<String, EvaluationError>>,
)
    requires
        0 <= at < slots.len(),
    ensures
        empty_count(slots.update(at, value)) + (if slots[at] is None {
            1nat
        } else {
            0nat
        }) == empty_count(slots) + (if value is None {
            1nat
        } else {
            0nat
        }),
    decreases slots.len(),
{
    let updated = slots.update(at, value);
    if at == slots.len() - 1 {
        assert(updated.drop_last() =~= slots.drop_last());
    } else {
        lemma_empty_count_update(slots.drop_last(), at, value);
        assert(updated.drop_last() =~= slots.drop_last().update(at, value));
    }
}

/// No slot is empty exactly when the count of empty slots is zero.
pub proof fn lemma_empty_count_zero(slots: Seq<Option<Result<String, EvaluationError>>>)
    ensures
        empty_count(slots) == 0 <==> (forall|i: int|
            0 <= i < slots.len() ==> (#[trigger] slots[i]) is Some),
        empty_count(slots) <= slots.len(),
    decreases slots.len(),
{
    if slots.len() > 0 {
        lemma_empty_count_zero(slots.drop_last());
        if empty_count(slots) == 0 {
            assert forall|i: int| 0 <= i < slots.len() implies (#[trigger] slots[i]) is Some by {
                if i < slots.len() - 1 {
                    assert(slots.drop_last()[i] is Some);
                }
            }
        } else if forall|i: int| 0 <= i < slots.len() ==> (#[trigger] slots[i]) is Some {
            assert forall|i: int| 0 <= i < slots.drop_last().len() implies (
            #[trigger] slots.drop_last()[i]) is Some by {
                assert(slots[i] is Some);
            }
            assert(slots.last() is Some);
        }
    }
}

} // verus!
