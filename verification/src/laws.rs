//! What holds of every schedule, proved from the model.

use crate::model::{
    any_arrived, completion_order, first_arrival, lemma_earliest_exists, lemma_first_arrival_at,
    lemma_next_exists, lemma_next_start, lemma_remove_keeps_distinct, lemma_schedule_len,
    lemma_schedule_step, next_index, next_start, schedule, tasks_of,
};
use crate::task::{distinct_ids, ids, Task};
use vstd::prelude::*;
use vstd::seq_lib::*;

verus! {

/// Two sequences with the same tasks, each as often, hold the same tasks.
proof fn lemma_same_members(a: Seq<Task>, b: Seq<Task>)
    requires
        a.to_multiset() == b.to_multiset(),
    ensures
        a.len() == b.len(),
        forall|t: Task| a.contains(t) <==> b.contains(t),
{
    to_multiset_len(a);
    to_multiset_len(b);
    assert forall|t: Task| a.contains(t) <==> b.contains(t) by {
        to_multiset_contains(a, t);
        to_multiset_contains(b, t);
    }
}

/// Rearranging tasks keeps their ids distinct.
pub proof fn lemma_rearranged_ids_stay_distinct(a: Seq<Task>, b: Seq<Task>)
    requires
        distinct_ids(a),
        a.to_multiset() == b.to_multiset(),
    ensures
        distinct_ids(b),
{
    lemma_same_members(a, b);
    assert(a.no_duplicates());
    a.lemma_multiset_has_no_duplicates();
    b.lemma_multiset_has_no_duplicates_conv();
    assert forall|i: int, j: int| 0 <= i < j < b.len() implies b[i].id != b[j].id by {
        assert(b.contains(b[i]));
        assert(b.contains(b[j]));
        let ai = choose|k: int| 0 <= k < a.len() && a[k] == b[i];
        let aj = choose|k: int| 0 <= k < a.len() && a[k] == b[j];
        if b[i].id == b[j].id {
            assert(ai == aj);
        }
    }
}

/// The schedule depends on which tasks are pending, not on the order in
/// which they are listed.
pub proof fn lemma_schedule_ignores_order(a: Seq<Task>, b: Seq<Task>, clock: int)
    requires
        distinct_ids(a),
        a.to_multiset() == b.to_multiset(),
    ensures
        schedule(a, clock) == schedule(b, clock),
    decreases a.len(),
{
    lemma_same_members(a, b);
    lemma_rearranged_ids_stay_distinct(a, b);
    if a.len() > 0 {
        assert(any_arrived(a, clock) <==> any_arrived(b, clock)) by {
            if any_arrived(a, clock) {
                let i = choose|i: int| 0 <= i < a.len() && #[trigger] a[i].arrived_by(clock);
                assert(a.contains(a[i]));
                let j = choose|j: int| 0 <= j < b.len() && b[j] == a[i];
                assert(b[j].arrived_by(clock));
            }
            if any_arrived(b, clock) {
                let i = choose|i: int| 0 <= i < b.len() && #[trigger] b[i].arrived_by(clock);
                assert(b.contains(b[i]));
                let j = choose|j: int| 0 <= j < a.len() && a[j] == b[i];
                assert(a[j].arrived_by(clock));
            }
        }
        assert(first_arrival(a) == first_arrival(b)) by {
            let ea = lemma_earliest_exists(a);
            let eb = lemma_earliest_exists(b);
            lemma_first_arrival_at(a, ea);
            lemma_first_arrival_at(b, eb);
            assert(a.contains(a[ea]));
            assert(b.contains(b[eb]));
            let ja = choose|j: int| 0 <= j < a.len() && a[j] == b[eb];
            let jb = choose|j: int| 0 <= j < b.len() && b[j] == a[ea];
            assert(a[ea].queued_at <= a[ja].queued_at);
            assert(b[eb].queued_at <= b[jb].queued_at);
        }
        let now = next_start(a, clock);
        assert(now == next_start(b, clock));
        lemma_next_start(a, clock);
        lemma_next_start(b, clock);
        let ia = lemma_next_exists(a, now);
        let ib = lemma_next_exists(b, now);
        assert(a[ia] == b[ib]) by {
            assert(a.contains(a[ia]));
            assert(b.contains(b[ib]));
            let ja = choose|j: int| 0 <= j < a.len() && a[j] == b[ib];
            let jb = choose|j: int| 0 <= j < b.len() && b[j] == a[ia];
            if ja != ia && jb != ib {
                assert(a[ia].runs_before(a[ja]));
                assert(b[ib].runs_before(b[jb]));
            }
        }
        to_multiset_remove(a, ia);
        to_multiset_remove(b, ib);
        lemma_remove_keeps_distinct(a, ia);
        lemma_schedule_ignores_order(a.remove(ia), b.remove(ib), now + a[ia].execution_duration);
        lemma_schedule_step(a, clock, ia);
        lemma_schedule_step(b, clock, ib);
    }
}

/// Listing the same tasks in another order never changes the order in
/// which they complete.
pub proof fn lemma_completion_order_ignores_input_order(a: Seq<Task>, b: Seq<Task>)
    requires
        distinct_ids(a),
        a.to_multiset() == b.to_multiset(),
    ensures
        completion_order(a) == completion_order(b),
{
    lemma_schedule_ignores_order(a, b, 0);
}

/// The tasks of a schedule are the pending tasks, each as often as it is
/// pending, and so are their ids.
pub proof fn lemma_schedule_rearranges(pending: Seq<Task>, clock: int)
    ensures
        schedule(pending, clock).len() == pending.len(),
        tasks_of(schedule(pending, clock)).to_multiset() == pending.to_multiset(),
        ids(tasks_of(schedule(pending, clock))).to_multiset() == ids(pending).to_multiset(),
    decreases pending.len(),
{
    lemma_schedule_len(pending, clock);
    if pending.len() == 0 {
        assert(tasks_of(schedule(pending, clock)) == pending);
    } else {
        let now = next_start(pending, clock);
        let i = next_index(pending, now);
        let rest = pending.remove(i);
        let later = schedule(rest, now + pending[i].execution_duration);
        lemma_schedule_rearranges(rest, now + pending[i].execution_duration);
        let run = tasks_of(later);
        assert(tasks_of(schedule(pending, clock)) == run.insert(0, pending[i]));
        assert(ids(tasks_of(schedule(pending, clock))) == ids(run).insert(0, pending[i].id));
        assert(ids(rest) == ids(pending).remove(i));
        to_multiset_insert(run, 0, pending[i]);
        to_multiset_insert(ids(run), 0, pending[i].id);
        to_multiset_remove(pending, i);
        to_multiset_remove(ids(pending), i);
        to_multiset_contains(pending, pending[i]);
        to_multiset_contains(ids(pending), ids(pending)[i]);
        assert(pending.contains(pending[i]));
        assert(ids(pending).contains(ids(pending)[i]));
        assert(pending.to_multiset().remove(pending[i]).insert(pending[i])
            == pending.to_multiset());
        assert(ids(pending).to_multiset().remove(pending[i].id).insert(pending[i].id) == ids(
            pending,
        ).to_multiset());
    }
}

/// Every task completes exactly once: the order of completion has one
/// entry for each task, holds each id of the input, and holds none twice.
pub proof fn lemma_each_task_completes_once(tasks: Seq<Task>)
    requires
        distinct_ids(tasks),
    ensures
        completion_order(tasks).len() == tasks.len(),
        completion_order(tasks).to_multiset() == ids(tasks).to_multiset(),
        completion_order(tasks).no_duplicates(),
        forall|id: u64| completion_order(tasks).contains(id) <==> ids(tasks).contains(id),
{
    lemma_schedule_rearranges(tasks, 0);
    assert(ids(tasks).no_duplicates());
    ids(tasks).lemma_multiset_has_no_duplicates();
    completion_order(tasks).lemma_multiset_has_no_duplicates_conv();
    assert forall|id: u64| completion_order(tasks).contains(id) <==> ids(tasks).contains(id) by {
        to_multiset_contains(completion_order(tasks), id);
        to_multiset_contains(ids(tasks), id);
    }
}

/// With no tasks there is nothing to complete.
pub proof fn lemma_empty_input_gives_empty_order()
    ensures
        completion_order(Seq::<Task>::empty()) == Seq::<u64>::empty(),
{
}

/// Every run starts when the processor is free and its task has arrived,
/// whatever its place in the schedule.
pub proof fn lemma_run_waits_for_arrival(pending: Seq<Task>, clock: int, k: int)
    requires
        distinct_ids(pending),
        0 <= k < pending.len(),
    ensures
        schedule(pending, clock).len() == pending.len(),
        schedule(pending, clock)[k].task.arrived_by(schedule(pending, clock)[k].start),
        clock <= schedule(pending, clock)[k].start,
    decreases pending.len(),
{
    lemma_schedule_len(pending, clock);
    let now = next_start(pending, clock);
    lemma_next_start(pending, clock);
    let i = lemma_next_exists(pending, now);
    lemma_schedule_step(pending, clock, i);
    if k > 0 {
        let after = now + pending[i].execution_duration;
        lemma_remove_keeps_distinct(pending, i);
        lemma_run_waits_for_arrival(pending.remove(i), after, k - 1);
        assert(schedule(pending, clock)[k] == schedule(pending.remove(i), after)[k - 1]);
    }
}

/// No task completes before it has arrived: the task at each place of the
/// order of completion was started at or after the time it was queued.
pub proof fn lemma_no_task_runs_before_it_arrives(tasks: Seq<Task>)
    requires
        distinct_ids(tasks),
    ensures
        schedule(tasks, 0).len() == tasks.len(),
        forall|k: int|
            #![trigger schedule(tasks, 0)[k]]
            0 <= k < tasks.len() ==> {
                &&& completion_order(tasks)[k] == schedule(tasks, 0)[k].task.id
                &&& schedule(tasks, 0)[k].task.queued_at <= schedule(tasks, 0)[k].start
            },
{
    lemma_schedule_len(tasks, 0);
    assert forall|k: int|
        #![trigger schedule(tasks, 0)[k]]
        0 <= k < tasks.len() implies {
        &&& completion_order(tasks)[k] == schedule(tasks, 0)[k].task.id
        &&& schedule(tasks, 0)[k].task.queued_at <= schedule(tasks, 0)[k].start
    } by {
        lemma_run_waits_for_arrival(tasks, 0, k);
    }
}

/// The processor runs one task at a time: each run starts at or after the
/// end of the run before it.
pub proof fn lemma_runs_follow_one_another(pending: Seq<Task>, clock: int, k: int)
    requires
        distinct_ids(pending),
        0 <= k,
        k + 1 < pending.len(),
    ensures
        schedule(pending, clock).len() == pending.len(),
        schedule(pending, clock)[k].finish() <= schedule(pending, clock)[k + 1].start,
    decreases pending.len(),
{
    lemma_schedule_len(pending, clock);
    let now = next_start(pending, clock);
    lemma_next_start(pending, clock);
    let i = lemma_next_exists(pending, now);
    lemma_schedule_step(pending, clock, i);
    let rest = pending.remove(i);
    let after = now + pending[i].execution_duration;
    lemma_remove_keeps_distinct(pending, i);
    lemma_schedule_len(rest, after);
    assert(schedule(pending, clock)[k + 1] == schedule(rest, after)[k]);
    if k == 0 {
        lemma_run_waits_for_arrival(rest, after, 0);
    } else {
        assert(schedule(pending, clock)[k] == schedule(rest, after)[k - 1]);
        lemma_runs_follow_one_another(rest, after, k - 1);
    }
}

/// A task of the schedule is among the pending tasks.
proof fn lemma_run_is_pending(pending: Seq<Task>, clock: int, k: int) -> (p: int)
    requires
        0 <= k < pending.len(),
    ensures
        0 <= p < pending.len(),
        schedule(pending, clock).len() == pending.len(),
        schedule(pending, clock)[k].task == pending[p],
{
    lemma_schedule_rearranges(pending, clock);
    let runs = schedule(pending, clock);
    assert(tasks_of(runs)[k] == runs[k].task);
    assert(tasks_of(runs).contains(runs[k].task));
    to_multiset_contains(tasks_of(runs), runs[k].task);
    to_multiset_contains(pending, runs[k].task);
    choose|p: int| 0 <= p < pending.len() && pending[p] == runs[k].task
}

/// Shortest first: a run goes ahead of every later run whose task had
/// arrived when it started, by shorter duration, or by smaller id where
/// the durations are equal.
pub proof fn lemma_shortest_arrived_runs_first(pending: Seq<Task>, clock: int, k: int, m: int)
    requires
        distinct_ids(pending),
        0 <= k < m < pending.len(),
        schedule(pending, clock)[m].task.arrived_by(schedule(pending, clock)[k].start),
    ensures
        schedule(pending, clock).len() == pending.len(),
        schedule(pending, clock)[k].task.runs_before(schedule(pending, clock)[m].task),
    decreases pending.len(),
{
    lemma_schedule_len(pending, clock);
    let now = next_start(pending, clock);
    lemma_next_start(pending, clock);
    let i = lemma_next_exists(pending, now);
    lemma_schedule_step(pending, clock, i);
    let rest = pending.remove(i);
    let after = now + pending[i].execution_duration;
    lemma_remove_keeps_distinct(pending, i);
    lemma_schedule_len(rest, after);
    let later = schedule(rest, after);
    assert(schedule(pending, clock)[m] == later[m - 1]);
    if k == 0 {
        let r = lemma_run_is_pending(rest, after, m - 1);
        let p = if r < i { r } else { r + 1 };
        assert(rest[r] == pending[p]);
        assert(pending[i].runs_before(pending[p]));
    } else {
        assert(schedule(pending, clock)[k] == later[k - 1]);
        lemma_shortest_arrived_runs_first(rest, after, k - 1, m - 1);
    }
}

/// The processor is never idle while a task waits. Let `free` be the time
/// at which it became free before run `k`: the end of run `k - 1`, or
/// `clock` for the first run. Run `k` starts at `free`, unless none of the
/// tasks still to run had arrived by then; it then starts no later than
/// any of them arrives.
pub proof fn lemma_never_idle_while_a_task_waits(pending: Seq<Task>, clock: int, k: int, m: int)
    requires
        distinct_ids(pending),
        0 <= k <= m < pending.len(),
    ensures
        schedule(pending, clock).len() == pending.len(),
        ({
            let runs = schedule(pending, clock);
            let free = if k == 0 { clock } else { runs[k - 1].finish() };
            runs[k].start == free || (free < runs[k].start <= runs[m].task.queued_at)
        }),
    decreases pending.len(),
{
    lemma_schedule_len(pending, clock);
    let now = next_start(pending, clock);
    lemma_next_start(pending, clock);
    let i = lemma_next_exists(pending, now);
    lemma_schedule_step(pending, clock, i);
    let rest = pending.remove(i);
    let after = now + pending[i].execution_duration;
    lemma_remove_keeps_distinct(pending, i);
    lemma_schedule_len(rest, after);
    let later = schedule(rest, after);
    if k == 0 {
        if !any_arrived(pending, clock) {
            let p = lemma_run_is_pending(pending, clock, m);
            let e = lemma_earliest_exists(pending);
            lemma_first_arrival_at(pending, e);
            assert(pending[e].queued_at <= pending[p].queued_at);
        }
    } else {
        assert(schedule(pending, clock)[k] == later[k - 1]);
        assert(schedule(pending, clock)[m] == later[m - 1]);
        if k > 1 {
            assert(schedule(pending, clock)[k - 1] == later[k - 2]);
        }
        lemma_never_idle_while_a_task_waits(rest, after, k - 1, m - 1);
    }
}

/// When every pending task has arrived, the schedule is in order of
/// duration, and of id among equal durations.
pub proof fn lemma_all_arrived_runs_shortest_first(
    pending: Seq<Task>,
    clock: int,
    m: int,
    n: int,
)
    requires
        distinct_ids(pending),
        forall|j: int| 0 <= j < pending.len() ==> (#[trigger] pending[j]).arrived_by(clock),
        0 <= m < n < pending.len(),
    ensures
        schedule(pending, clock).len() == pending.len(),
        schedule(pending, clock)[m].task.runs_before(schedule(pending, clock)[n].task),
    decreases pending.len(),
{
    lemma_schedule_len(pending, clock);
    assert(pending[0].arrived_by(clock));
    let i = lemma_next_exists(pending, clock);
    lemma_schedule_step(pending, clock, i);
    let rest = pending.remove(i);
    let after = clock + pending[i].execution_duration;
    lemma_remove_keeps_distinct(pending, i);
    lemma_schedule_len(rest, after);
    let later = schedule(rest, after);
    assert(schedule(pending, clock)[n] == later[n - 1]);
    assert forall|j: int| 0 <= j < rest.len() implies (#[trigger] rest[j]).arrived_by(after) by {
        assert(rest[j] == pending[if j < i { j } else { j + 1 }]);
    }
    if m == 0 {
        let r = lemma_run_is_pending(rest, after, n - 1);
        let p = if r < i { r } else { r + 1 };
        assert(rest[r] == pending[p]);
        assert(pending[i].runs_before(pending[p]));
    } else {
        assert(schedule(pending, clock)[m] == later[m - 1]);
        lemma_all_arrived_runs_shortest_first(rest, after, m - 1, n - 1);
    }
}

/// Of two pending tasks that arrive together and take equally long, the
/// one with the smaller id comes first in the schedule.
pub proof fn lemma_tie_goes_to_smaller_id(pending: Seq<Task>, clock: int, i: int, j: int) -> (at: (
    int,
    int,
))
    requires
        distinct_ids(pending),
        0 <= i < pending.len(),
        0 <= j < pending.len(),
        pending[i].queued_at == pending[j].queued_at,
        pending[i].execution_duration == pending[j].execution_duration,
        pending[i].id < pending[j].id,
    ensures
        0 <= at.0 < at.1 < pending.len(),
        ids(tasks_of(schedule(pending, clock)))[at.0] == pending[i].id,
        ids(tasks_of(schedule(pending, clock)))[at.1] == pending[j].id,
    decreases pending.len(),
{
    lemma_schedule_len(pending, clock);
    let now = next_start(pending, clock);
    lemma_next_start(pending, clock);
    let x = lemma_next_exists(pending, now);
    lemma_schedule_step(pending, clock, x);
    let rest = pending.remove(x);
    let after = now + pending[x].execution_duration;
    let order = ids(tasks_of(schedule(pending, clock)));
    let later = ids(tasks_of(schedule(rest, after)));
    lemma_schedule_len(rest, after);
    lemma_remove_keeps_distinct(pending, x);
    assert(order == later.insert(0, pending[x].id));
    if x == j {
        assert(pending[i].arrived_by(now));
        assert(pending[j].runs_before(pending[i]));
        (0, 0)
    } else if x == i {
        let jj = if j < x { j } else { j - 1 };
        assert(rest[jj] == pending[j]);
        lemma_schedule_rearranges(rest, after);
        assert(ids(rest)[jj] == pending[j].id);
        assert(ids(rest).contains(pending[j].id));
        to_multiset_contains(ids(rest), pending[j].id);
        to_multiset_contains(later, pending[j].id);
        let n = choose|n: int| 0 <= n < later.len() && later[n] == pending[j].id;
        assert(order[n + 1] == later[n]);
        (0, n + 1)
    } else {
        let ii = if i < x { i } else { i - 1 };
        let jj = if j < x { j } else { j - 1 };
        assert(rest[ii] == pending[i]);
        assert(rest[jj] == pending[j]);
        let at = lemma_tie_goes_to_smaller_id(rest, after, ii, jj);
        assert(order[at.0 + 1] == later[at.0]);
        assert(order[at.1 + 1] == later[at.1]);
        (at.0 + 1, at.1 + 1)
    }
}

/// Two tasks with the same arrival time and the same duration complete in
/// the order of their ids.
pub proof fn lemma_equal_tasks_complete_in_id_order(tasks: Seq<Task>, i: int, j: int)
    requires
        distinct_ids(tasks),
        0 <= i < tasks.len(),
        0 <= j < tasks.len(),
        tasks[i].queued_at == tasks[j].queued_at,
        tasks[i].execution_duration == tasks[j].execution_duration,
        tasks[i].id < tasks[j].id,
    ensures
        forall|m: int, n: int|
            0 <= m < tasks.len() && 0 <= n < tasks.len() && completion_order(tasks)[m]
                == tasks[i].id && completion_order(tasks)[n] == tasks[j].id ==> m < n,
        exists|m: int, n: int|
            0 <= m < n < tasks.len() && completion_order(tasks)[m] == tasks[i].id
                && completion_order(tasks)[n] == tasks[j].id,
{
    let at = lemma_tie_goes_to_smaller_id(tasks, 0, i, j);
    lemma_each_task_completes_once(tasks);
    let order = completion_order(tasks);
    assert(order[at.0] == tasks[i].id && order[at.1] == tasks[j].id);
    assert forall|m: int, n: int|
        0 <= m < tasks.len() && 0 <= n < tasks.len() && order[m] == tasks[i].id && order[n]
            == tasks[j].id implies m < n by {
        assert(m == at.0);
        assert(n == at.1);
    }
}

} // verus!
