//! The supervisor of the adapter tasks: the first task that fails takes the
//! others down with it, and once none is left the engine shuts down.

use vstd::prelude::*;

verus! {

/// How an adapter task ended.
#[derive(Debug, Clone, Copy, PartialEq, Eq)]
pub enum TaskOutcome {
    /// It stopped because the engine no longer took snapshots.
    Succeeded,
    /// It stopped with an error.
    Failed,
    /// It was cancelled.
    Cancelled,
}

/// What the supervisor does after a task ends.
#[derive(Debug, Clone, Copy, PartialEq, Eq)]
pub enum SupervisorAction {
    /// Keep waiting for the other tasks.
    Continue,
    /// Cancel every task still running.
    CancelOthers,
    /// No task is left: tell the engine to shut down.
    ShutDown,
}

/// Counts the adapter tasks still running.
#[derive(Debug)]
pub struct Supervisor {
    running: usize,
}

/// `first`, then each of `causes`, joined by `": "`.
pub open spec fn cause_chain(first: Seq<char>, causes: Seq<String>) -> Seq<char>
    decreases causes.len(),
{
    if causes.len() == 0 {
        first
    } else {
        cause_chain(first, causes.drop_last()) + ": "@ + causes.last()@
    }
}

impl Supervisor {
    /// How many tasks are still running.
    pub closed spec fn running(&self) -> nat {
        self.running as nat
    }

    /// Watches `tasks` tasks.
    pub fn new(tasks: usize) -> (r: Self)
        ensures
            r.running() == tasks,
    {
        Supervisor { running: tasks }
    }

    /// Whether no task is left, so that the engine should shut down.
    pub fn is_idle(&self) -> (r: bool)
        ensures
            r == (self.running() == 0),
    {
        self.running == 0
    }

    /// Takes note that a task ended with `outcome`, and says what to do.
    pub fn on_task_end(&mut self, outcome: TaskOutcome) -> (r: SupervisorAction)
        requires
            old(self).running() > 0,
        ensures
            final(self).running() == old(self).running() - 1,
            final(self).running() == 0 ==> r == SupervisorAction::ShutDown,
            final(self).running() > 0 && outcome == TaskOutcome::Failed ==> r
                == SupervisorAction::CancelOthers,
            final(self).running() > 0 && outcome != TaskOutcome::Failed ==> r
                == SupervisorAction::Continue,
    {
        self.running = self.running - 1;
        if self.running == 0 {
            SupervisorAction::ShutDown
        } else {
            match outcome {
                TaskOutcome::Failed => SupervisorAction::CancelOthers,
                _ => SupervisorAction::Continue,
            }
        }
    }
}

/// The whole chain of an error in one line: the error's own message, then
/// the message of each underlying cause, each after `": "`.
pub fn describe_failure(error: &str, causes: &Vec<String>) -> (r: String)
    ensures
        r@ == cause_chain(error@, causes@),
{
    let mut r = String::from_str(error);
    let mut i: usize = 0;
    while i < causes.len()
        invariant
            i <= causes@.len(),
            r@ == cause_chain(error@, causes@.take(i as int)),
        decreases causes@.len() - i,
    {
        proof {
            assert(causes@.take(i + 1).drop_last() =~= causes@.take(i as int));
        }
        r.append(": ");
        r.append(causes[i].as_str());
        i = i + 1;
    }
    assert(causes@.take(causes@.len() as int) =~= causes@);
    r
}

} // verus!
