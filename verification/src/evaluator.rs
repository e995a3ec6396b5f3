//! One evaluator worker: the state of its subprocess and what one
//! request-reply exchange means for the task and for the worker.

use crate::protocol::{parse_response, reply_fault, EvaluationError};
use vstd::prelude::*;
use vstd::utf8::decode_utf8;

verus! {

/// Where a worker stands.
#[derive(Clone, Copy, Debug, PartialEq, Eq, Structural)]
pub enum WorkerState {
    /// The subprocess runs and holds no task.
    Ready,
    /// The subprocess holds the task with this correlation id.
    Busy { task: u64 },
    /// The subprocess is gone and a new one is being started.
    Respawning,
    /// The subprocess is gone and the respawn budget is spent.
    Retired,
}

/// What the owner of the subprocess must do next.
#[derive(Clone, Copy, Debug, PartialEq, Eq, Structural)]
pub enum Recovery {
    /// The subprocess is fine.
    Keep,
    /// Start a new subprocess and report how that went.
    Respawn,
    /// Close the pipes for good.
    Retire,
}

/// What to do with a subprocess whose pipes were closed.
#[derive(Clone, Copy, Debug, PartialEq, Eq, Structural)]
pub enum CloseAction {
    /// It has exited: nothing is left to do.
    Done,
    /// It may still exit by itself: look again later.
    Wait,
    /// It had its time: end it by force.
    Kill,
}

/// Decides what to do with a subprocess after its pipes were closed: wait
/// while it runs and the time it was given is not over, then end it by
/// force.
pub fn close_step(exited: bool, waited_ms: u64, limit_ms: u64) -> (action: CloseAction)
    ensures
        action == if exited {
            CloseAction::Done
        } else if waited_ms < limit_ms {
            CloseAction::Wait
        } else {
            CloseAction::Kill
        },
{
    if exited {
        CloseAction::Done
    } else if waited_ms < limit_ms {
        CloseAction::Wait
    } else {
        CloseAction::Kill
    }
}

/// How one write-then-read round trip with the subprocess ended.
pub enum Exchange {
    /// The request was written, and this is what one read up to and
    /// including the next newline, or up to the end of the stream, returned.
    Reply(Vec<u8>),
    /// The request could not be written or flushed.
    WriteFailed,
    /// Reading the reply failed.
    ReadFailed,
}

/// What an exchange yields for the task: the reply's text, or the reason
/// why there is none.
pub open spec fn exchange_outcome(exchange: Exchange) -> Result<Seq<char>, EvaluationError> {
    match exchange {
        Exchange::Reply(raw) => match reply_fault(raw@) {
            None => Ok(decode_utf8(raw@.drop_last())),
            Some(violation) => Err(EvaluationError::Protocol(violation)),
        },
        Exchange::WriteFailed => Err(EvaluationError::WriteFailed),
        Exchange::ReadFailed => Err(EvaluationError::ReadFailed),
    }
}

/// Whether a result carries what an outcome says: the same text, or the
/// same error.
pub open spec fn carries(
    result: Result<String, EvaluationError>,
    outcome: Result<Seq<char>, EvaluationError>,
) -> bool {
    match outcome {
        Ok(text) => result matches Ok(s) && s@ == text,
        Err(e) => result == Err::<String, EvaluationError>(e),
    }
}

/// One worker of the pool.
#[derive(Clone, Copy, Debug, PartialEq, Eq, Structural)]
pub struct Evaluator {
    state: WorkerState,
    respawns_left: u32,
}

impl Evaluator {
    /// Where the worker stands.
    pub closed spec fn state(self) -> WorkerState {
        self.state
    }

    /// How many more times the subprocess may be started anew.
    pub closed spec fn respawns_left(self) -> nat {
        self.respawns_left as nat
    }

    /// What losing the subprocess does to a worker: it respawns while the
    /// budget lasts, at the price of one respawn, and retires after that.
    pub open spec fn lost(pre: Evaluator, post: Evaluator, recovery: Recovery) -> bool {
        if pre.respawns_left() > 0 {
            &&& post.state() == WorkerState::Respawning
            &&& post.respawns_left() == pre.respawns_left() - 1
            &&& recovery == Recovery::Respawn
        } else {
            &&& post.state() == WorkerState::Retired
            &&& post.respawns_left() == 0
            &&& recovery == Recovery::Retire
        }
    }

    /// A worker whose subprocess was just started.
    pub fn new(respawn_budget: u32) -> (worker: Evaluator)
        ensures
            worker.state() == WorkerState::Ready,
            worker.respawns_left() == respawn_budget,
    {
        Evaluator { state: WorkerState::Ready, respawns_left: respawn_budget }
    }

    /// Where the worker stands.
    pub fn current_state(&self) -> (s: WorkerState)
        ensures
            s == self.state(),
    {
        self.state
    }

    /// How many more times the subprocess may be started anew.
    pub fn remaining_respawns(&self) -> (n: u32)
        ensures
            n == self.respawns_left(),
    {
        self.respawns_left
    }

    /// Hands a task to the worker. Only a ready worker takes one: a worker
    /// never holds two tasks.
    pub fn begin(&mut self, task: u64) -> (taken: bool)
        ensures
            taken == (old(self).state() == WorkerState::Ready),
            final(self).respawns_left() == old(self).respawns_left(),
            final(self).state() == if taken {
                WorkerState::Busy { task }
            } else {
                old(self).state()
            },
    {
        match self.state {
            WorkerState::Ready => {
                self.state = WorkerState::Busy { task };
                true
            },
            _ => false,
        }
    }

    /// Retires the worker for good, whatever it was doing. Returns the
    /// task it held, if it held one: that task is lost with the worker.
    pub fn retire(&mut self) -> (lost: Option<u64>)
        ensures
            final(self).state() == WorkerState::Retired,
            final(self).respawns_left() == old(self).respawns_left(),
            match old(self).state() {
                WorkerState::Busy { task } => lost == Some(task),
                _ => lost is None,
            },
    {
        let lost = match self.state {
            WorkerState::Busy { task } => Some(task),
            _ => None,
        };
        self.state = WorkerState::Retired;
        lost
    }

    fn lose(&mut self) -> (recovery: Recovery)
        ensures
            Self::lost(*old(self), *final(self), recovery),
    {
        if self.respawns_left > 0 {
            self.respawns_left = self.respawns_left - 1;
            self.state = WorkerState::Respawning;
            Recovery::Respawn
        } else {
            self.state = WorkerState::Retired;
            Recovery::Retire
        }
    }

    /// Records how the attempt to start a new subprocess went. A worker
    /// that was not respawning is left as it is.
    pub fn respawned(&mut self, started: bool) -> (recovery: Recovery)
        ensures
            if old(self).state() != WorkerState::Respawning {
                *final(self) == *old(self) && recovery == Recovery::Keep
            } else if started {
                &&& final(self).state() == WorkerState::Ready
                &&& final(self).respawns_left() == old(self).respawns_left()
                &&& recovery == Recovery::Keep
            } else {
                Self::lost(*old(self), *final(self), recovery)
            },
    {
        match self.state {
            WorkerState::Respawning => {
                if started {
                    self.state = WorkerState::Ready;
                    Recovery::Keep
                } else {
                    self.lose()
                }
            },
            _ => Recovery::Keep,
        }
    }
}

/// Finishes the task that a worker holds, given how the exchange with its
/// subprocess went. A well-framed reply gives the task its text and leaves
/// the worker ready. Anything else (a failed write or read, a stream that
/// ended early, a reply that is not one UTF-8 line) gives the task that
/// error and costs the worker its subprocess. A worker that holds no task
/// is left as it is, and there is no result.
pub fn evaluate(worker: &mut Evaluator, exchange: Exchange) -> (r: Option<
    (Result<String, EvaluationError>, Recovery),
>)
    ensures
        r is None <==> !(old(worker).state() is Busy),
        r is None ==> *final(worker) == *old(worker),
        r matches Some((result, recovery)) ==> {
            &&& carries(result, exchange_outcome(exchange))
            &&& if result is Ok {
                &&& final(worker).state() == WorkerState::Ready
                &&& final(worker).respawns_left() == old(worker).respawns_left()
                &&& recovery == Recovery::Keep
            } else {
                Evaluator::lost(*old(worker), *final(worker), recovery)
            }
        },
{
    match worker.state {
        WorkerState::Busy { task } => {
            let result = match exchange {
                Exchange::Reply(raw) => match parse_response(raw) {
                    Ok(text) => Ok(text),
                    Err(violation) => Err(EvaluationError::Protocol(violation)),
                },
                Exchange::WriteFailed => Err(EvaluationError::WriteFailed),
                Exchange::ReadFailed => Err(EvaluationError::ReadFailed),
            };
            if result.is_ok() {
                worker.state = WorkerState::Ready;
                Some((result, Recovery::Keep))
            } else {
                let recovery = worker.lose();
                Some((result, recovery))
            }
        },
        _ => None,
    }
}

} // verus!
