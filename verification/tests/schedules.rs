use spt_scheduler::task::ids_are_distinct;
use spt_scheduler::{execution_order, execution_order_original, Task};

fn task(id: u64, queued_at: u32, execution_duration: u32) -> Task {
    Task {
        id,
        queued_at,
        execution_duration,
    }
}

fn sample() -> Vec<Task> {
    vec![
        task(7, 4, 2),
        task(3, 0, 5),
        task(9, 1, 1),
        task(1, 30, 0),
        task(5, 6, 2),
        task(8, 2, 9),
        task(2, 30, 4),
    ]
}

#[test]
fn sample_completes_in_the_expected_order() {
    // 0: #3 starts (only one queued), runs to 5
    // 5: #9 (1), #7 (2), #8 (9) wait; #9 runs to 6
    // 6: #5 is queued; #5 and #7 both take 2, the smaller id goes first
    // 6: #5 runs to 8, #7 runs to 10, #8 runs to 19
    // 19: nothing is queued until 30
    // 30: #1 (0) runs, then #2 (4)
    assert!(ids_are_distinct(&sample()));
    assert_eq!(execution_order(sample()), vec![3, 9, 5, 7, 8, 1, 2]);
}

#[test]
fn every_task_completes_exactly_once() {
    let order = execution_order(sample());
    assert_eq!(order.len(), sample().len());
    let mut completed = order.clone();
    completed.sort();
    let mut given: Vec<u64> = sample().iter().map(|t| t.id).collect();
    given.sort();
    assert_eq!(completed, given);
}

#[test]
fn input_order_does_not_matter() {
    let expected = execution_order(sample());
    let mut reversed = sample();
    reversed.reverse();
    assert_eq!(execution_order(reversed), expected);
    let mut rotated = sample();
    rotated.rotate_left(3);
    assert_eq!(execution_order(rotated), expected);
    let mut swapped = sample();
    swapped.swap(0, 6);
    swapped.swap(2, 4);
    assert_eq!(execution_order(swapped), expected);
}

#[test]
fn equal_arrival_and_duration_complete_by_id() {
    let tasks = vec![task(30, 2, 4), task(10, 2, 4), task(20, 2, 4)];
    assert_eq!(execution_order(tasks), vec![10, 20, 30]);
}

#[test]
fn tie_break_holds_when_the_tied_tasks_wait_behind_another() {
    let tasks = vec![task(99, 0, 10), task(51, 1, 3), task(50, 1, 3), task(1, 2, 7)];
    assert_eq!(execution_order(tasks), vec![99, 50, 51, 1]);
}

#[test]
fn no_task_completes_before_it_arrives() {
    // #2 is by far the shortest, but is queued last: it cannot overtake
    // what ran while it was not there.
    let tasks = vec![task(1, 0, 10), task(2, 25, 1), task(3, 5, 10)];
    assert_eq!(execution_order(tasks), vec![1, 3, 2]);
    // Replaying the order, each task starts at or after its arrival.
    let given = sample();
    let mut clock: u64 = 0;
    for id in execution_order(sample()) {
        let t = given.iter().find(|t| t.id == id).unwrap();
        if clock < t.queued_at as u64 {
            clock = t.queued_at as u64;
        }
        assert!(t.queued_at as u64 <= clock);
        clock += t.execution_duration as u64;
    }
    assert_eq!(clock, 34);
}

#[test]
fn all_arriving_at_zero_run_shortest_first() {
    let tasks = vec![task(4, 0, 8), task(2, 0, 3), task(3, 0, 8), task(1, 0, 5), task(5, 0, 0)];
    assert_eq!(execution_order(tasks), vec![5, 2, 1, 3, 4]);
}

#[test]
fn arrival_exactly_at_the_clock_is_eligible() {
    // #1 finishes at 4; #3 is queued at 4 and is shorter than #2.
    let tasks = vec![task(1, 0, 4), task(2, 1, 6), task(3, 4, 2)];
    assert_eq!(execution_order(tasks), vec![1, 3, 2]);
    // One tick later it would have been too late.
    let tasks = vec![task(1, 0, 4), task(2, 1, 6), task(3, 5, 2)];
    assert_eq!(execution_order(tasks), vec![1, 2, 3]);
}

#[test]
fn zero_duration_tasks_take_a_slot_but_no_time() {
    // The zero-length tasks leave the clock at 0, so #4, queued at 1, is
    // not yet there when #3 is chosen.
    let tasks = vec![task(1, 0, 0), task(2, 0, 0), task(3, 0, 5), task(4, 1, 1)];
    assert_eq!(execution_order(tasks), vec![1, 2, 3, 4]);
}

#[test]
fn clock_does_not_jump_while_a_task_waits() {
    // At 1 both #2 and #3 wait and #4 is still to come: the processor
    // goes on at 1, not at 3. #2 ends at 6, before #5 is queued at 7, so
    // #3 runs next and #5 only after it.
    let tasks = vec![
        task(1, 0, 1),
        task(2, 0, 5),
        task(3, 0, 6),
        task(4, 3, 10),
        task(5, 7, 1),
    ];
    assert_eq!(execution_order(tasks), vec![1, 2, 3, 5, 4]);
}

#[test]
fn idle_jump_goes_to_the_earliest_arrival() {
    let tasks = vec![task(1, 50, 1), task(2, 40, 20), task(3, 45, 2)];
    // Idle until 40: only #2 is there and runs to 60; then #1 before #3.
    assert_eq!(execution_order(tasks), vec![2, 1, 3]);
}

#[test]
fn single_task() {
    assert_eq!(execution_order(vec![task(11, 1000, 7)]), vec![11]);
}

#[test]
fn largest_times_and_durations() {
    let tasks = vec![
        task(1, u32::MAX, u32::MAX),
        task(2, u32::MAX, u32::MAX),
        task(3, 0, u32::MAX),
        task(4, 1, u32::MAX),
        task(u64::MAX, u32::MAX, 0),
    ];
    // #3 runs from 0 to the largest time; by then all the others wait:
    // the one that takes no time first, the rest by id.
    assert_eq!(execution_order(tasks), vec![3, u64::MAX, 1, 2, 4]);
}

#[test]
fn both_forms_agree() {
    let inputs = vec![
        sample(),
        vec![],
        vec![task(42, 5, 3), task(43, 2, 3), task(44, 0, 2)],
        vec![task(1, 0, 1), task(2, 0, 5), task(3, 0, 6), task(4, 3, 10), task(5, 7, 1)],
        vec![task(1, u32::MAX, u32::MAX), task(2, u32::MAX, u32::MAX), task(3, 0, u32::MAX)],
        vec![task(30, 2, 4), task(10, 2, 4), task(20, 2, 4)],
    ];
    for tasks in inputs {
        assert_eq!(execution_order_original(tasks.clone()), execution_order(tasks));
    }
}

#[test]
fn rescanning_form_reverse_queue_order() {
    let tasks = vec![task(42, 5, 3), task(43, 2, 3), task(44, 0, 2)];
    assert_eq!(execution_order_original(tasks), vec![44, 43, 42]);
}

#[test]
fn rescanning_form_two_items_queued_at_once() {
    let tasks = vec![task(42, 0, 3), task(43, 1, 3), task(44, 2, 2)];
    assert_eq!(execution_order_original(tasks), vec![42, 44, 43]);
}

#[test]
fn rescanning_form_idle() {
    let tasks = vec![task(42, 0, 1), task(43, 3, 3)];
    assert_eq!(execution_order_original(tasks), vec![42, 43]);
}

#[test]
fn rescanning_form_empty_task_list() {
    assert_eq!(execution_order_original(vec![]), vec![]);
}

#[test]
fn rescanning_form_breaks_ties_by_id() {
    let tasks = vec![task(43, 1, 3), task(42, 1, 3)];
    assert_eq!(execution_order_original(tasks), vec![42, 43]);
}

#[test]
fn rescanning_form_task_inserted_into_queue() {
    let tasks = vec![task(42, 0, 3), task(43, 1, 5), task(44, 2, 6), task(45, 5, 1)];
    assert_eq!(execution_order_original(tasks), vec![42, 43, 45, 44]);
}
