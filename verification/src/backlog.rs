//! The backlog: tasks not yet arrived, kept in order of arrival.

use crate::task::{sorted_by_arrival, Task};
use vstd::prelude::*;
use vstd::seq_lib::{lemma_multiset_commutative, to_multiset_build};

verus! {

/// Merges two runs of tasks, each in order of arrival, into one.
fn merge_by_arrival(left: &Vec<Task>, right: &Vec<Task>) -> (merged: Vec<Task>)
    requires
        sorted_by_arrival(left@),
        sorted_by_arrival(right@),
    ensures
        sorted_by_arrival(merged@),
        merged@.to_multiset() == left@.to_multiset().add(right@.to_multiset()),
{
    let mut merged: Vec<Task> = Vec::new();
    let mut i: usize = 0;
    let mut j: usize = 0;
    proof {
        lemma_multiset_commutative(left@.take(0), right@.take(0));
        assert(left@.take(0) + right@.take(0) == merged@);
    }
    while i < left.len() || j < right.len()
        invariant
            i <= left.len(),
            j <= right.len(),
            sorted_by_arrival(left@),
            sorted_by_arrival(right@),
            sorted_by_arrival(merged@),
            merged@.to_multiset() == left@.take(i as int).to_multiset().add(
                right@.take(j as int).to_multiset(),
            ),
            forall|k: int|
                0 <= k < merged.len() && i < left.len() ==> (#[trigger] merged[k]).queued_at
                    <= left[i as int].queued_at,
            forall|k: int|
                0 <= k < merged.len() && j < right.len() ==> (#[trigger] merged[k]).queued_at
                    <= right[j as int].queued_at,
        decreases left.len() - i + right.len() - j,
    {
        let from_left = j >= right.len() || (i < left.len() && left[i].queued_at
            <= right[j].queued_at);
        if from_left {
            let task = left[i];
            proof {
                to_multiset_build(merged@, task);
                to_multiset_build(left@.take(i as int), task);
                assert(left@.take(i + 1) == left@.take(i as int).push(task));
                assert(left@.take(i as int).to_multiset().insert(task).add(
                    right@.take(j as int).to_multiset(),
                ) == left@.take(i as int).to_multiset().add(
                    right@.take(j as int).to_multiset(),
                ).insert(task));
            }
            merged.push(task);
            i += 1;
        } else {
            let task = right[j];
            proof {
                to_multiset_build(merged@, task);
                to_multiset_build(right@.take(j as int), task);
                assert(right@.take(j + 1) == right@.take(j as int).push(task));
                assert(left@.take(i as int).to_multiset().add(
                    right@.take(j as int).to_multiset().insert(task),
                ) == left@.take(i as int).to_multiset().add(
                    right@.take(j as int).to_multiset(),
                ).insert(task));
            }
            merged.push(task);
            j += 1;
        }
    }
    proof {
        assert(left@.take(i as int) == left@);
        assert(right@.take(j as int) == right@);
    }
    merged
}

/// The tasks at positions `from` up to `to` of `tasks`, in order of arrival.
fn sorted_range(tasks: &Vec<Task>, from: usize, to: usize) -> (sorted: Vec<Task>)
    requires
        from <= to <= tasks.len(),
    ensures
        sorted_by_arrival(sorted@),
        sorted@.to_multiset() == tasks@.subrange(from as int, to as int).to_multiset(),
    decreases to - from,
{
    if to - from <= 1 {
        let mut sorted: Vec<Task> = Vec::new();
        if from < to {
            sorted.push(tasks[from]);
        }
        assert(sorted@ == tasks@.subrange(from as int, to as int));
        sorted
    } else {
        let middle = from + (to - from) / 2;
        let left = sorted_range(tasks, from, middle);
        let right = sorted_range(tasks, middle, to);
        proof {
            let first = tasks@.subrange(from as int, middle as int);
            let second = tasks@.subrange(middle as int, to as int);
            lemma_multiset_commutative(first, second);
            assert(first + second == tasks@.subrange(from as int, to as int));
        }
        merge_by_arrival(&left, &right)
    }
}

/// Reorders `tasks` so that arrival times never decrease.
pub fn sort_by_arrival(tasks: &mut Vec<Task>)
    ensures
        sorted_by_arrival(final(tasks)@),
        final(tasks)@.to_multiset() == old(tasks)@.to_multiset(),
{
    let sorted = sorted_range(tasks, 0, tasks.len());
    assert(tasks@.subrange(0, tasks.len() as int) == tasks@);
    *tasks = sorted;
}

} // verus!
