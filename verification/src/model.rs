//! The mathematical model of the simulation: which task the processor
//! takes next, when it starts it, and the schedule that results.

use crate::task::{distinct_ids, ids, Task};
use vstd::prelude::*;

verus! {

/// One entry of a schedule: a task and the time the processor started it.
pub struct Run {
    pub task: Task,
    pub start: int,
}

impl Run {
    /// The time at which the processor is free again.
    pub open spec fn finish(self) -> int {
        self.start + self.task.execution_duration
    }
}

/// Some pending task has arrived by `clock`.
pub open spec fn any_arrived(pending: Seq<Task>, clock: int) -> bool {
    exists|i: int| 0 <= i < pending.len() && #[trigger] pending[i].arrived_by(clock)
}

/// Position `i` holds a task that no pending task arrives before.
pub open spec fn is_earliest(pending: Seq<Task>, i: int) -> bool {
    &&& 0 <= i < pending.len()
    &&& forall|j: int| 0 <= j < pending.len() ==> pending[i].queued_at <= pending[j].queued_at
}

/// The smallest arrival time among the pending tasks.
pub open spec fn first_arrival(pending: Seq<Task>) -> int
    recommends
        pending.len() > 0,
{
    pending[choose|i: int| is_earliest(pending, i)].queued_at as int
}

/// The time at which the processor, free at `clock`, starts its next
/// task: at once if a task is waiting, otherwise at the next arrival.
pub open spec fn next_start(pending: Seq<Task>, clock: int) -> int
    recommends
        pending.len() > 0,
{
    if any_arrived(pending, clock) {
        clock
    } else {
        first_arrival(pending)
    }
}

/// Position `i` holds the task to start at time `now`: it has arrived, and
/// it runs before every other pending task that has arrived.
pub open spec fn is_next(pending: Seq<Task>, now: int, i: int) -> bool {
    &&& 0 <= i < pending.len()
    &&& pending[i].arrived_by(now)
    &&& forall|j: int|
        0 <= j < pending.len() && j != i && pending[j].arrived_by(now) ==> pending[i].runs_before(
            #[trigger] pending[j],
        )
}

/// The position of the task to start at time `now`. When ids are distinct
/// and some task has arrived, exactly one position qualifies; position 0
/// stands in where none does.
pub open spec fn next_index(pending: Seq<Task>, now: int) -> int {
    if exists|i: int| is_next(pending, now, i) {
        choose|i: int| is_next(pending, now, i)
    } else {
        0
    }
}

/// The runs of the processor, in order, from the moment it is free at
/// `clock` with the tasks `pending` still to do.
pub open spec fn schedule(pending: Seq<Task>, clock: int) -> Seq<Run>
    decreases pending.len(),
{
    if pending.len() == 0 {
        Seq::empty()
    } else {
        let now = next_start(pending, clock);
        let i = next_index(pending, now);
        seq![Run { task: pending[i], start: now }] + schedule(
            pending.remove(i),
            now + pending[i].execution_duration,
        )
    }
}

/// The tasks of a schedule, in the order they run.
pub open spec fn tasks_of(runs: Seq<Run>) -> Seq<Task> {
    Seq::new(runs.len(), |k: int| runs[k].task)
}

/// The ids of `tasks` in the order the tasks complete, the processor
/// being free at time 0.
pub open spec fn completion_order(tasks: Seq<Task>) -> Seq<u64> {
    ids(tasks_of(schedule(tasks, 0)))
}

/// Only one position can hold the task to start at `now`.
pub proof fn lemma_next_is_unique(pending: Seq<Task>, now: int, i: int)
    requires
        is_next(pending, now, i),
    ensures
        next_index(pending, now) == i,
{
    let c = choose|c: int| is_next(pending, now, c);
    if c != i {
        assert(pending[i].runs_before(pending[c]));
        assert(pending[c].runs_before(pending[i]));
    }
}

/// Every position that no task arrives before gives the first arrival.
pub proof fn lemma_first_arrival_at(pending: Seq<Task>, i: int)
    requires
        is_earliest(pending, i),
    ensures
        first_arrival(pending) == pending[i].queued_at,
{
    let c = choose|c: int| is_earliest(pending, c);
    assert(pending[c].queued_at <= pending[i].queued_at);
    assert(pending[i].queued_at <= pending[c].queued_at);
}

/// A non-empty sequence has a position that no task arrives before.
pub proof fn lemma_earliest_exists(pending: Seq<Task>) -> (i: int)
    requires
        pending.len() > 0,
    ensures
        is_earliest(pending, i),
    decreases pending.len(),
{
    if pending.len() == 1 {
        0
    } else {
        let rest = pending.drop_last();
        let r = lemma_earliest_exists(rest);
        let last = pending.len() - 1;
        if pending[last].queued_at < rest[r].queued_at {
            assert forall|j: int| 0 <= j < pending.len() implies pending[last].queued_at
                <= pending[j].queued_at by {
                if j < last {
                    assert(rest[j] == pending[j]);
                }
            }
            last
        } else {
            assert forall|j: int| 0 <= j < pending.len() implies pending[r].queued_at
                <= pending[j].queued_at by {
                if j < last {
                    assert(rest[j] == pending[j]);
                }
            }
            r
        }
    }
}

/// Among the first `n` pending tasks, if one has arrived by `now`, one of
/// the arrived runs before all the others.
proof fn lemma_best_in_prefix(pending: Seq<Task>, now: int, n: int) -> (b: int)
    requires
        distinct_ids(pending),
        0 <= n <= pending.len(),
        exists|k: int| 0 <= k < n && #[trigger] pending[k].arrived_by(now),
    ensures
        0 <= b < n,
        pending[b].arrived_by(now),
        forall|j: int|
            0 <= j < n && j != b && pending[j].arrived_by(now) ==> pending[b].runs_before(
                #[trigger] pending[j],
            ),
    decreases n,
{
    let last = n - 1;
    if exists|k: int| 0 <= k < last && #[trigger] pending[k].arrived_by(now) {
        let b = lemma_best_in_prefix(pending, now, last);
        if pending[last].arrived_by(now) && pending[last].runs_before(pending[b]) {
            last
        } else {
            b
        }
    } else {
        last
    }
}

/// With distinct ids, once some task has arrived there is a task to start.
pub proof fn lemma_next_exists(pending: Seq<Task>, now: int) -> (i: int)
    requires
        distinct_ids(pending),
        any_arrived(pending, now),
    ensures
        is_next(pending, now, i),
        next_index(pending, now) == i,
{
    let i = lemma_best_in_prefix(pending, now, pending.len() as int);
    lemma_next_is_unique(pending, now, i);
    i
}

/// The processor never starts before it is free, and at the start time
/// some pending task has arrived.
pub proof fn lemma_next_start(pending: Seq<Task>, clock: int)
    requires
        pending.len() > 0,
    ensures
        clock <= next_start(pending, clock),
        any_arrived(pending, next_start(pending, clock)),
        !any_arrived(pending, clock) ==> next_start(pending, clock) == first_arrival(pending),
{
    if !any_arrived(pending, clock) {
        let e = lemma_earliest_exists(pending);
        lemma_first_arrival_at(pending, e);
        assert(pending[e].arrived_by(first_arrival(pending)));
        assert(!pending[e].arrived_by(clock));
    }
}

/// Unfolds a schedule at a known first task.
pub proof fn lemma_schedule_step(pending: Seq<Task>, clock: int, i: int)
    requires
        is_next(pending, next_start(pending, clock), i),
    ensures
        schedule(pending, clock) == seq![
            Run { task: pending[i], start: next_start(pending, clock) },
        ] + schedule(
            pending.remove(i),
            next_start(pending, clock) + pending[i].execution_duration,
        ),
{
    lemma_next_is_unique(pending, next_start(pending, clock), i);
}

/// Running the task at `i`, which is the one to start at `clock`, puts its
/// id first in the order of completion.
pub proof fn lemma_run_comes_first(pending: Seq<Task>, clock: int, i: int)
    requires
        is_next(pending, clock, i),
    ensures
        ids(tasks_of(schedule(pending, clock))) == seq![pending[i].id] + ids(
            tasks_of(schedule(pending.remove(i), clock + pending[i].execution_duration)),
        ),
{
    assert(pending[i].arrived_by(clock));
    lemma_schedule_step(pending, clock, i);
}

/// While nothing has arrived, the clock may as well stand at the first
/// arrival: the schedule is the same.
pub proof fn lemma_idle_jump(pending: Seq<Task>, clock: int)
    requires
        pending.len() > 0,
        !any_arrived(pending, clock),
    ensures
        schedule(pending, clock) == schedule(pending, first_arrival(pending)),
{
    lemma_next_start(pending, clock);
}

/// Taking a task out keeps the ids distinct.
pub proof fn lemma_remove_keeps_distinct(pending: Seq<Task>, i: int)
    requires
        distinct_ids(pending),
        0 <= i < pending.len(),
    ensures
        distinct_ids(pending.remove(i)),
{
    let rest = pending.remove(i);
    assert forall|a: int, b: int| 0 <= a < b < rest.len() implies rest[a].id != rest[b].id by {
        let pa = if a < i { a } else { a + 1 };
        let pb = if b < i { b } else { b + 1 };
        assert(rest[a] == pending[pa]);
        assert(rest[b] == pending[pb]);
    }
}

/// A schedule has one run for each pending task.
pub proof fn lemma_schedule_len(pending: Seq<Task>, clock: int)
    ensures
        schedule(pending, clock).len() == pending.len(),
    decreases pending.len(),
{
    if pending.len() > 0 {
        let now = next_start(pending, clock);
        let i = next_index(pending, now);
        lemma_schedule_len(pending.remove(i), now + pending[i].execution_duration);
    }
}

} // verus!
