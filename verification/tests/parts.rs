use spt_scheduler::backlog::sort_by_arrival;
use spt_scheduler::ready::remove_first;
use spt_scheduler::scheduler::shortest_arrived;
use spt_scheduler::task::ids_are_distinct;
use spt_scheduler::Task;
use std::collections::BTreeMap;

fn make(id: u64, queued_at: u32, execution_duration: u32) -> Task {
    Task {
        id,
        queued_at,
        execution_duration,
    }
}

#[test]
fn distinct_ids_are_accepted() {
    assert!(ids_are_distinct(&vec![]));
    assert!(ids_are_distinct(&vec![make(1, 0, 0)]));
    assert!(ids_are_distinct(&vec![make(1, 0, 0), make(2, 0, 0), make(0, 0, 0)]));
}

#[test]
fn repeated_ids_are_found() {
    assert!(!ids_are_distinct(&vec![make(1, 0, 0), make(1, 5, 3)]));
    assert!(!ids_are_distinct(&vec![
        make(4, 0, 0),
        make(2, 0, 0),
        make(3, 0, 0),
        make(2, 9, 9)
    ]));
}

#[test]
fn sorting_orders_by_arrival_and_keeps_every_task() {
    let mut tasks = vec![
        make(1, 9, 1),
        make(2, 3, 2),
        make(3, 7, 3),
        make(4, 0, 4),
        make(5, 3, 5),
        make(6, 8, 6),
        make(7, 1, 7),
    ];
    sort_by_arrival(&mut tasks);
    let arrivals: Vec<u32> = tasks.iter().map(|t| t.queued_at).collect();
    assert_eq!(arrivals, vec![0, 1, 3, 3, 7, 8, 9]);
    let mut found: Vec<u64> = tasks.iter().map(|t| t.id).collect();
    found.sort();
    assert_eq!(found, vec![1, 2, 3, 4, 5, 6, 7]);
    for t in &tasks {
        assert_eq!(t.execution_duration as u64, t.id);
    }
}

#[test]
fn sorting_short_inputs() {
    let mut none: Vec<Task> = vec![];
    sort_by_arrival(&mut none);
    assert!(none.is_empty());
    let mut one = vec![make(1, 5, 5)];
    sort_by_arrival(&mut one);
    assert_eq!(one, vec![make(1, 5, 5)]);
    let mut two = vec![make(1, 5, 5), make(2, 4, 4)];
    sort_by_arrival(&mut two);
    assert_eq!(two, vec![make(2, 4, 4), make(1, 5, 5)]);
}

#[test]
fn remove_first_takes_the_least_key() {
    let mut ready: BTreeMap<(u32, u64), Task> = BTreeMap::new();
    for t in [make(7, 0, 3), make(5, 0, 3), make(9, 0, 1), make(1, 0, 8)] {
        ready.insert((t.execution_duration, t.id), t);
    }
    assert_eq!(remove_first(&mut ready), Some(make(9, 0, 1)));
    assert_eq!(ready.len(), 3);
    assert!(!ready.contains_key(&(1, 9)));
    assert_eq!(remove_first(&mut ready), Some(make(5, 0, 3)));
    assert_eq!(remove_first(&mut ready), Some(make(7, 0, 3)));
    assert_eq!(remove_first(&mut ready), Some(make(1, 0, 8)));
    assert!(ready.is_empty());
}

#[test]
fn remove_first_of_an_empty_map() {
    let mut ready: BTreeMap<(u32, u64), Task> = BTreeMap::new();
    assert_eq!(remove_first(&mut ready), None);
    assert!(ready.is_empty());
    let mut numbers: BTreeMap<u8, bool> = BTreeMap::new();
    assert_eq!(remove_first(&mut numbers), None);
    numbers.insert(200, true);
    numbers.insert(3, false);
    assert_eq!(remove_first(&mut numbers), Some(false));
    assert_eq!(numbers.len(), 1);
}

#[test]
fn shortest_arrived_looks_only_at_what_has_arrived() {
    let tasks = vec![make(1, 0, 9), make(2, 2, 4), make(3, 2, 4), make(4, 6, 1)];
    assert_eq!(shortest_arrived(&tasks, 0), Some(0));
    assert_eq!(shortest_arrived(&tasks, 1), Some(0));
    assert_eq!(shortest_arrived(&tasks, 2), Some(1));
    assert_eq!(shortest_arrived(&tasks, 5), Some(1));
    assert_eq!(shortest_arrived(&tasks, 6), Some(3));
    assert_eq!(shortest_arrived(&tasks, u128::MAX), Some(3));
}

#[test]
fn shortest_arrived_finds_nothing_before_the_first_arrival() {
    let tasks = vec![make(1, 3, 9), make(2, 4, 4)];
    assert_eq!(shortest_arrived(&tasks, 0), None);
    assert_eq!(shortest_arrived(&tasks, 2), None);
    assert_eq!(shortest_arrived(&tasks, 3), Some(0));
    assert_eq!(shortest_arrived(&vec![], 10), None);
}
