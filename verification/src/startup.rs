//! The configuration that the program resolves once at launch and hands to
//! the pool and the engine.

use crate::evaluator::WorkerState;
use crate::pool::{lemma_idle_pool_answered_all, WorkerPool};
use vstd::pervasive::unreached;
use vstd::prelude::*;

verus! {

/// Why the program cannot start.
#[derive(Clone, Copy, Debug, PartialEq, Eq, Structural)]
pub enum StartupConfigurationError {
    /// The evaluator executable could not be resolved.
    MissingEvaluator,
    /// The sound bank could not be resolved.
    MissingSoundBank,
    /// A pool needs at least one worker.
    NoWorkers,
}

/// The first reason, if any, for which these settings are no
/// configuration: an evaluator path that is missing or empty, a sound bank
/// that is missing or empty, a pool of no worker.
pub open spec fn startup_fault(
    evaluator: Option<Seq<char>>,
    sound_bank: Option<Seq<u8>>,
    workers: usize,
) -> Option<StartupConfigurationError> {
    if evaluator is None || evaluator->0.len() == 0 {
        Some(StartupConfigurationError::MissingEvaluator)
    } else if sound_bank is None || sound_bank->0.len() == 0 {
        Some(StartupConfigurationError::MissingSoundBank)
    } else if workers == 0 {
        Some(StartupConfigurationError::NoWorkers)
    } else {
        None
    }
}

/// What the program needs before it builds the pool and the engine.
pub struct StartupConfig {
    evaluator: String,
    sound_bank: Vec<u8>,
    workers: usize,
    respawn_budget: u32,
}

impl StartupConfig {
    #[verifier::type_invariant]
    spec fn complete(self) -> bool {
        self.evaluator@.len() > 0 && self.sound_bank@.len() > 0 && self.workers > 0
    }

    /// The path of the evaluator executable.
    pub closed spec fn evaluator(&self) -> Seq<char> {
        self.evaluator@
    }

    /// The bytes of the sound bank.
    pub closed spec fn sound_bank(&self) -> Seq<u8> {
        self.sound_bank@
    }

    /// The number of workers.
    pub closed spec fn workers(&self) -> usize {
        self.workers
    }

    /// How often one worker's subprocess may be started anew.
    pub closed spec fn respawn_budget(&self) -> u32 {
        self.respawn_budget
    }

    /// Checks what the program resolved. `None` stands for a resource that
    /// could not be resolved.
    pub fn new(
        evaluator: Option<String>,
        sound_bank: Option<Vec<u8>>,
        workers: usize,
        respawn_budget: u32,
    ) -> (r: Result<StartupConfig, StartupConfigurationError>)
        ensures
            match startup_fault(
                match evaluator {
                    Some(path) => Some(path@),
                    None => None,
                },
                match sound_bank {
                    Some(bank) => Some(bank@),
                    None => None,
                },
                workers,
            ) {
                Some(e) => r == Err::<StartupConfig, StartupConfigurationError>(e),
                None => {
                    &&& r matches Ok(config)
                    &&& evaluator matches Some(path) && config.evaluator() == path@
                    &&& sound_bank matches Some(bank) && config.sound_bank() == bank@
                    &&& config.workers() == workers
                    &&& config.respawn_budget() == respawn_budget
                },
            },
    {
        let path = match evaluator {
            Some(path) => path,
            None => {
                return Err(StartupConfigurationError::MissingEvaluator);
            },
        };
        if path.as_str().is_empty() {
            return Err(StartupConfigurationError::MissingEvaluator);
        }
        let bank = match sound_bank {
            Some(bank) => bank,
            None => {
                return Err(StartupConfigurationError::MissingSoundBank);
            },
        };
        if bank.len() == 0 {
            return Err(StartupConfigurationError::MissingSoundBank);
        }
        if workers == 0 {
            return Err(StartupConfigurationError::NoWorkers);
        }
        Ok(StartupConfig { evaluator: path, sound_bank: bank, workers, respawn_budget })
    }

    /// The path of the evaluator executable.
    pub fn evaluator_path(&self) -> (path: &str)
        ensures
            path@ == self.evaluator(),
            path@.len() > 0,
    {
        proof {
            use_type_invariant(self);
        }
        self.evaluator.as_str()
    }

    /// The bytes of the sound bank.
    pub fn sound_bank_bytes(&self) -> (bank: &Vec<u8>)
        ensures
            bank@ == self.sound_bank(),
            bank@.len() > 0,
    {
        proof {
            use_type_invariant(self);
        }
        &self.sound_bank
    }

    /// The pool that this configuration asks for: every worker ready, no
    /// task taken in yet.
    pub fn build_pool(&self) -> (pool: WorkerPool)
        ensures
            pool.wf(),
            pool.size() == self.workers(),
            pool.submitted() == 0,
            pool.completed() == 0,
            pool.cursor() == 0,
            pool.idle(),
            forall|w: int|
                0 <= w < pool.size() ==> (#[trigger] pool.workers()[w]).state()
                    == WorkerState::Ready && pool.workers()[w].respawns_left()
                    == self.respawn_budget(),
    {
        proof {
            use_type_invariant(self);
        }
        match WorkerPool::new(self.workers, self.respawn_budget) {
            Ok(pool) => {
                proof {
                    lemma_idle_pool_answered_all(pool);
                }
                pool
            },
            Err(_) => unreached(),
        }
    }
}

} // verus!
