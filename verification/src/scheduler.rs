//! The simulation itself, in two forms that compute the same order.

use crate::backlog::sort_by_arrival;
use crate::laws::{
    lemma_rearranged_ids_stay_distinct, lemma_schedule_ignores_order, lemma_schedule_rearranges,
};
use crate::model::{
    any_arrived, completion_order, is_earliest, is_next, lemma_first_arrival_at, lemma_idle_jump,
    lemma_remove_keeps_distinct, lemma_run_comes_first, schedule, tasks_of,
};
use crate::ready::{
    holds_exactly, is_least_key, lemma_least_key_is_next, lemma_ready_after_insert,
    lemma_ready_after_remove, lemma_ready_empty, remove_first,
};
use crate::task::{distinct_ids, ids, sorted_by_arrival, Task};
use std::collections::BTreeMap;
use vstd::prelude::*;

verus! {

/// With nothing waiting and the next task of the backlog still to come,
/// the processor may as well wait for it: the schedule is the same.
proof fn lemma_wait_for_backlog(tasks: Seq<Task>, next: int, time: int)
    requires
        sorted_by_arrival(tasks),
        0 <= next < tasks.len(),
        tasks[next].queued_at > time,
    ensures
        schedule(tasks.skip(next), time) == schedule(tasks.skip(next), tasks[next].queued_at as int),
{
    let pending = tasks.skip(next);
    assert(is_earliest(pending, 0));
    lemma_first_arrival_at(pending, 0);
    assert(!any_arrived(pending, time));
    lemma_idle_jump(pending, time);
}

/// Moving the head of the backlog into the ready set changes neither the
/// pending tasks nor their order.
proof fn lemma_queue_head(
    ready: Map<(u32, u64), Task>,
    waiting: Seq<Task>,
    tasks: Seq<Task>,
    next: int,
)
    requires
        holds_exactly(ready, waiting),
        distinct_ids(waiting + tasks.skip(next)),
        0 <= next < tasks.len(),
    ensures
        holds_exactly(ready.insert(tasks[next].priority(), tasks[next]), waiting.push(tasks[next])),
        waiting.push(tasks[next]) + tasks.skip(next + 1) == waiting + tasks.skip(next),
{
    let pending = waiting + tasks.skip(next);
    let task = tasks[next];
    assert(waiting.push(task) + tasks.skip(next + 1) == pending);
    assert(waiting.push(task) == pending.take(waiting.len() as int + 1));
    lemma_ready_after_insert(ready, waiting, task);
}

/// Taking the least key out of the ready set runs the task that the
/// schedule puts first, and leaves the rest pending.
proof fn lemma_run_least(
    before: Map<(u32, u64), Task>,
    after: Map<(u32, u64), Task>,
    waiting: Seq<Task>,
    tasks: Seq<Task>,
    next: int,
    time: int,
    current: Task,
) -> (i: int)
    requires
        holds_exactly(before, waiting),
        distinct_ids(waiting + tasks.skip(next)),
        sorted_by_arrival(tasks),
        0 <= next <= tasks.len(),
        next < tasks.len() ==> tasks[next].queued_at > time,
        forall|j: int| 0 <= j < waiting.len() ==> (#[trigger] waiting[j]).arrived_by(time),
        exists|k: (u32, u64)|
            {
                &&& #[trigger] is_least_key(before, k)
                &&& current == before[k]
                &&& after == before.remove(k)
            },
    ensures
        0 <= i < waiting.len(),
        current == waiting[i],
        holds_exactly(after, waiting.remove(i)),
        distinct_ids(waiting.remove(i) + tasks.skip(next)),
        ids(tasks_of(schedule(waiting + tasks.skip(next), time))) == seq![current.id] + ids(
            tasks_of(
                schedule(
                    waiting.remove(i) + tasks.skip(next),
                    time + current.execution_duration,
                ),
            ),
        ),
{
    let k = choose|k: (u32, u64)|
        #[trigger] is_least_key(before, k) && current == before[k] && after == before.remove(k);
    let backlog = tasks.skip(next);
    let pending = waiting + backlog;
    assert forall|j: int| 0 <= j < backlog.len() implies !(#[trigger] backlog[j]).arrived_by(
        time,
    ) by {
        assert(backlog[j] == tasks[next + j]);
    }
    let i = lemma_least_key_is_next(before, waiting, backlog, time, k);
    lemma_run_comes_first(pending, time, i);
    lemma_remove_keeps_distinct(pending, i);
    assert(distinct_ids(waiting)) by {
        assert(waiting == pending.take(waiting.len() as int));
    }
    lemma_ready_after_remove(before, waiting, i);
    assert(pending.remove(i) == waiting.remove(i) + backlog);
    i
}

/// The order in which `tasks` complete: their ids, one for each task, as
/// a single processor finishes them when it always starts the shortest
/// task that has arrived, the smaller id first among equally short ones,
/// and waits for the next arrival when none has.
pub fn execution_order(tasks: Vec<Task>) -> (executed: Vec<u64>)
    requires
        distinct_ids(tasks@),
    ensures
        executed@ == completion_order(tasks@),
        executed@.len() == tasks@.len(),
        executed@.to_multiset() == ids(tasks@).to_multiset(),
{
    let ghost input = tasks@;
    let mut tasks = tasks;
    sort_by_arrival(&mut tasks);
    proof {
        lemma_rearranged_ids_stay_distinct(input, tasks@);
        lemma_schedule_ignores_order(input, tasks@, 0);
        lemma_schedule_rearranges(input, 0);
    }
    let mut executed: Vec<u64> = Vec::new();
    // The clock never passes the latest arrival plus all the durations,
    // which fits in 128 bits however many tasks there are.
    let mut time: u128 = 0;
    let mut q: BTreeMap<(u32, u64), Task> = BTreeMap::new();
    let mut next: usize = 0;
    let ghost mut waiting: Seq<Task> = Seq::empty();
    assert(waiting + tasks@.skip(0) == tasks@);
    // while there are still tasks to queue and execute
    while next < tasks.len() || !q.is_empty()
        invariant
            next <= tasks.len(),
            sorted_by_arrival(tasks@),
            holds_exactly(q@, waiting),
            distinct_ids(waiting + tasks@.skip(next as int)),
            forall|j: int| 0 <= j < waiting.len() ==> (#[trigger] waiting[j]).arrived_by(time as int),
            executed@ + ids(
                tasks_of(schedule(waiting + tasks@.skip(next as int), time as int)),
            ) == completion_order(input),
            executed@.len() + waiting.len() == next,
            time <= (executed@.len() + 1) * 0xFFFF_FFFF,
        decreases tasks.len() - next + waiting.len(),
    {
        let ghost pending = waiting + tasks@.skip(next as int);
        proof {
            lemma_ready_empty(q@, waiting);
        }
        // nothing waits and nothing has arrived: the processor is idle
        // until the next task is queued
        if q.is_empty() && tasks[next].queued_at as u128 > time {
            proof {
                assert(pending == tasks@.skip(next as int));
                lemma_wait_for_backlog(tasks@, next as int, time as int);
            }
            time = tasks[next].queued_at as u128;
        }
        // queue every task that has arrived by now
        while next < tasks.len() && tasks[next].queued_at as u128 <= time
            invariant
                next <= tasks.len(),
                holds_exactly(q@, waiting),
                waiting + tasks@.skip(next as int) == pending,
                distinct_ids(pending),
                forall|j: int|
                    0 <= j < waiting.len() ==> (#[trigger] waiting[j]).arrived_by(time as int),
                executed@.len() + waiting.len() == next,
                waiting.len() > 0 || (next < tasks.len() && tasks[next as int].queued_at <= time),
            decreases tasks.len() - next,
        {
            let task = tasks[next];
            proof {
                lemma_queue_head(q@, waiting, tasks@, next as int);
                waiting = waiting.push(task);
            }
            q.insert((task.execution_duration, task.id), task);
            next += 1;
        }
        // run the shortest of the queued tasks to completion
        let ghost before = q@;
        if let Some(current) = remove_first(&mut q) {
            proof {
                let i = lemma_run_least(
                    before,
                    q@,
                    waiting,
                    tasks@,
                    next as int,
                    time as int,
                    current,
                );
                waiting = waiting.remove(i);
            }
            time = time + current.execution_duration as u128;
            executed.push(current.id);
        } else {
            // cannot happen: by now at least one task is queued
            proof {
                lemma_ready_empty(before, waiting);
                assert(false);
            }
        }
    }
    proof {
        lemma_ready_empty(q@, waiting);
        assert(waiting + tasks@.skip(next as int) == Seq::<Task>::empty());
    }
    executed
}

/// Among the tasks that have arrived by `time`, the position of the one
/// to run next; `None` while none has arrived.
pub fn shortest_arrived(tasks: &Vec<Task>, time: u128) -> (found: Option<usize>)
    requires
        distinct_ids(tasks@),
        sorted_by_arrival(tasks@),
    ensures
        match found {
            Some(i) => is_next(tasks@, time as int, i as int),
            None => !any_arrived(tasks@, time as int),
        },
{
    if tasks.len() == 0 || tasks[0].queued_at as u128 > time {
        return None;
    }
    let mut best: usize = 0;
    let mut i: usize = 1;
    while i < tasks.len() && tasks[i].queued_at as u128 <= time
        invariant
            distinct_ids(tasks@),
            sorted_by_arrival(tasks@),
            0 <= best < i <= tasks.len(),
            forall|j: int| 0 <= j < i ==> (#[trigger] tasks[j]).arrived_by(time as int),
            forall|j: int|
                0 <= j < i && j != best ==> tasks[best as int].runs_before(#[trigger] tasks[j]),
        decreases tasks.len() - i,
    {
        let shorter = tasks[i].execution_duration < tasks[best].execution_duration || (
        tasks[i].execution_duration == tasks[best].execution_duration && tasks[i].id
            < tasks[best].id);
        if shorter {
            best = i;
        }
        i += 1;
    }
    Some(best)
}

/// The order in which `tasks` complete, found by looking through the
/// arrived tasks anew each time the processor is free.
pub fn execution_order_original(tasks: Vec<Task>) -> (result: Vec<u64>)
    requires
        distinct_ids(tasks@),
    ensures
        result@ == completion_order(tasks@),
        result@.len() == tasks@.len(),
        result@.to_multiset() == ids(tasks@).to_multiset(),
{
    let ghost input = tasks@;
    let mut tasks = tasks;
    sort_by_arrival(&mut tasks);
    proof {
        lemma_rearranged_ids_stay_distinct(input, tasks@);
        lemma_schedule_ignores_order(input, tasks@, 0);
        lemma_schedule_rearranges(input, 0);
    }
    let ghost total = tasks@.len();
    assert(total == tasks.len());
    let mut time: u128 = 0;
    let mut result: Vec<u64> = Vec::new();
    while tasks.len() > 0
        invariant
            distinct_ids(tasks@),
            sorted_by_arrival(tasks@),
            result@ + ids(tasks_of(schedule(tasks@, time as int))) == completion_order(input),
            result@.len() + tasks@.len() == total,
            total <= usize::MAX,
            time <= (result@.len() + 1) * 0xFFFF_FFFF,
        decreases
                tasks.len(),
                (if tasks@[0].queued_at > time {
                    1int
                } else {
                    0int
                }),
    {
        match shortest_arrived(&tasks, time) {
            Some(i) => {
                proof {
                    lemma_run_comes_first(tasks@, time as int, i as int);
                    lemma_remove_keeps_distinct(tasks@, i as int);
                }
                let current = tasks.remove(i);
                time = time + current.execution_duration as u128;
                result.push(current.id);
            },
            None => {
                proof {
                    assert(is_earliest(tasks@, 0));
                    lemma_first_arrival_at(tasks@, 0);
                    lemma_idle_jump(tasks@, time as int);
                    assert(!tasks@[0].arrived_by(time as int));
                }
                time = tasks[0].queued_at as u128;
            },
        }
    }
    result
}

} // verus!
