//! The task record and the orders the scheduler uses on it.

use std::collections::BTreeSet;
use vstd::prelude::*;

verus! {

/// One unit of work, known before the simulation starts.
#[derive(Debug, Clone, Copy, PartialEq, Eq, Structural)]
pub struct Task {
    /// Caller-assigned identifier, unique within one input.
    pub id: u64,
    /// Simulated time at which the task becomes eligible to run.
    pub queued_at: u32,
    /// Processor time the task needs once started.
    pub execution_duration: u32,
}

impl Task {
    /// The task has been queued by time `clock`.
    pub open spec fn arrived_by(self, clock: int) -> bool {
        self.queued_at <= clock
    }

    /// `self` is chosen ahead of `other` when both are ready: shorter
    /// duration first, equal durations by smaller id.
    pub open spec fn runs_before(self, other: Task) -> bool {
        self.execution_duration < other.execution_duration || (self.execution_duration
            == other.execution_duration && self.id < other.id)
    }

    /// The key by which the ready set orders the task.
    pub open spec fn priority(self) -> (u32, u64) {
        (self.execution_duration, self.id)
    }
}

/// No two positions of `tasks` carry the same id.
pub open spec fn distinct_ids(tasks: Seq<Task>) -> bool {
    forall|i: int, j: int| 0 <= i < j < tasks.len() ==> tasks[i].id != tasks[j].id
}

/// Whether no id occurs twice in `tasks`, which is what the simulation
/// asks of its input.
pub fn ids_are_distinct(tasks: &Vec<Task>) -> (distinct: bool)
    ensures
        distinct == distinct_ids(tasks@),
{
    let mut seen: BTreeSet<u64> = BTreeSet::new();
    let mut i: usize = 0;
    while i < tasks.len()
        invariant
            i <= tasks.len(),
            forall|a: int, b: int| 0 <= a < b < i ==> tasks[a].id != tasks[b].id,
            forall|k: int| 0 <= k < i ==> seen@.contains(#[trigger] tasks[k].id),
            forall|id: u64|
                seen@.contains(id) ==> exists|k: int| 0 <= k < i && #[trigger] tasks[k].id == id,
        decreases tasks.len() - i,
    {
        let id = tasks[i].id;
        if !seen.insert(id) {
            proof {
                let k = choose|k: int| 0 <= k < i && #[trigger] tasks[k].id == id;
                assert(tasks@[k].id == tasks@[i as int].id);
            }
            return false;
        }
        i += 1;
    }
    true
}

/// The ids of `tasks`, position by position.
pub open spec fn ids(tasks: Seq<Task>) -> Seq<u64> {
    Seq::new(tasks.len(), |k: int| tasks[k].id)
}

/// Arrival times never decrease along `tasks`.
pub open spec fn sorted_by_arrival(tasks: Seq<Task>) -> bool {
    forall|i: int, j: int| 0 <= i <= j < tasks.len() ==> tasks[i].queued_at <= tasks[j].queued_at
}

} // verus!
