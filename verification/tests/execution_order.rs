use spt_scheduler::{execution_order, Task};

#[test]
fn reverse_queue_order() {
    // 44   0   2
    // 43   2   3
    // 42   5   3

    let tasks = vec![
        Task {
            id: 42,
            queued_at: 5,
            execution_duration: 3,
        },
        Task {
            id: 43,
            queued_at: 2,
            execution_duration: 3,
        },
        Task {
            id: 44,
            queued_at: 0,
            execution_duration: 2,
        },
    ];

    assert_eq!(execution_order(tasks), vec![44, 43, 42]);
}

#[test]
fn two_items_queued_at_once() {
    // 0: #42 is queued
    // 0: #42 is started
    // 1: #43 is queued
    // 2: #44 is queued
    // 3: #42 is finished
    // 3: #44 is started (it is queued and has a lower execution_duration than #43)
    // 5: #44 is finished
    // 5: #43 is started
    // 8: #43 is finished

    let tasks = vec![
        Task {
            id: 42,
            queued_at: 0,
            execution_duration: 3,
        },
        Task {
            id: 43,
            queued_at: 1,
            execution_duration: 3,
        },
        Task {
            id: 44,
            queued_at: 2,
            execution_duration: 2,
        },
    ];

    assert_eq!(execution_order(tasks), vec![42, 44, 43]);
}

#[test]
fn idle() {
    // 0: #42 is queued
    // 0: #42 is started
    // 1: #42 is finished
    // 1: nothing is queued, the processor waits
    // 3: #43 is queued
    // 3: #43 is started
    // 6: #43 is finished

    let tasks = vec![
        Task {
            id: 42,
            queued_at: 0,
            execution_duration: 1,
        },
        Task {
            id: 43,
            queued_at: 3,
            execution_duration: 3,
        },
    ];

    assert_eq!(execution_order(tasks), vec![42, 43]);
}

#[test]
fn empty_task_list() {
    assert_eq!(execution_order(vec![]), vec![]);
}

#[test]
fn two_items_same_queue_time_and_exec_duration() {
    let tasks = vec![
        Task {
            id: 42,
            queued_at: 1,
            execution_duration: 3,
        },
        Task {
            id: 43,
            queued_at: 1,
            execution_duration: 3,
        },
    ];

    assert_eq!(execution_order(tasks), vec![42, 43]);
}

#[test]
fn task_inserted_into_queue() {
    // 0: #42 is queued and started
    // 1: #43 is queued
    // 2: #44 is queued
    // 3: #42 is finished, #43 is started
    // 5: #45 is queued
    // 8: #43 is finished, #45 is started
    // 9: #45 is finished, #44 is started
    // 15: #44 is finished
    let tasks = vec![
        Task {
            id: 42,
            queued_at: 0,
            execution_duration: 3,
        },
        Task {
            id: 43,
            queued_at: 1,
            execution_duration: 5,
        },
        Task {
            id: 44,
            queued_at: 2,
            execution_duration: 6,
        },
        Task {
            id: 45,
            queued_at: 5,
            execution_duration: 1,
        },
    ];

    assert_eq!(execution_order(tasks), vec![42, 43, 45, 44]);
}
