//! The ready set: arrived tasks in a map ordered by duration, then id.

use crate::model::is_next;
use crate::task::{distinct_ids, Task};
use std::collections::BTreeMap;
use vstd::laws_cmp::obeys_cmp;
use vstd::prelude::*;
use vstd::std_specs::btree::{increasing_seq, spec_keys_iter};
use vstd::std_specs::cmp::OrdSpec;
use vstd::std_specs::iter::IteratorSpec;

verus! {

/// `k` is a key of `m`, and the order of the keys puts it before every
/// other key of `m`.
pub open spec fn is_least_key<K: Ord, V>(m: Map<K, V>, k: K) -> bool {
    &&& m.contains_key(k)
    &&& forall|j: K| m.contains_key(j) && j != k ==> k.cmp_spec(&j) is Less
}

/// Takes the entry with the least key out of `map` and returns its value;
/// `None`, and nothing changes, when the map is empty.
pub fn remove_first<K: Copy + Ord, V>(map: &mut BTreeMap<K, V>) -> (first: Option<V>)
    requires
        obeys_cmp::<K>(),
    ensures
        first is None <==> old(map)@.len() == 0,
        first is None ==> final(map)@ == old(map)@,
        first matches Some(v) ==> exists|k: K|
            {
                &&& #[trigger] is_least_key(old(map)@, k)
                &&& v == old(map)@[k]
                &&& final(map)@ == old(map)@.remove(k)
            },
{
    let mut key: Option<K> = None;
    for k in it: map.keys()
        invariant_except_break
            key is None,
            it.index() == 0,
        ensures
            key matches Some(k) ==> it.seq().len() > 0 && *it.seq()[0] == k,
            key is None ==> it.seq().len() == 0,
    {
        key = Some(*k);
        break;
    }
    match key {
        Some(k) => {
            let first = map.remove(&k);
            proof {
                let keys = spec_keys_iter(old(map)).remaining();
                assert(keys.unref()[0] == k);
                assert(keys.unref().to_set().contains(k));
                assert forall|j: K| old(map)@.contains_key(j) && j != k implies k.cmp_spec(
                    &j,
                ) is Less by {
                    assert(keys.unref().to_set().contains(j));
                    let i = choose|i: int| 0 <= i < keys.unref().len() && keys.unref()[i] == j;
                    assert(obeys_cmp::<&K>());
                    assert(increasing_seq(keys));
                    assert(OrdSpec::cmp_spec(&keys[0], &keys[i]) is Less);
                }
                assert(is_least_key(old(map)@, k));
            }
            first
        },
        None => None,
    }
}

/// The order of the ready set's keys: by duration, then by id.
pub open spec fn key_before(a: (u32, u64), b: (u32, u64)) -> bool {
    a.0 < b.0 || (a.0 == b.0 && a.1 < b.1)
}

/// The least key of a ready set belongs to the task that runs before all
/// the others in it.
pub proof fn lemma_least_key_runs_first(ready: Map<(u32, u64), Task>, k: (u32, u64))
    requires
        is_least_key(ready, k),
    ensures
        forall|j: (u32, u64)| ready.contains_key(j) && j != k ==> key_before(k, j),
{
    assert forall|j: (u32, u64)| ready.contains_key(j) && j != k implies key_before(k, j) by {
        assert(k.cmp_spec(&j) is Less);
    }
}

/// `ready` holds the tasks of `waiting` and no others, each under its
/// priority.
pub open spec fn holds_exactly(ready: Map<(u32, u64), Task>, waiting: Seq<Task>) -> bool {
    &&& forall|i: int|
        0 <= i < waiting.len() ==> ready.contains_key(#[trigger] waiting[i].priority())
            && ready[waiting[i].priority()] == waiting[i]
    &&& forall|k: (u32, u64)| #[trigger]
        ready.contains_key(k) ==> exists|i: int|
            0 <= i < waiting.len() && #[trigger] waiting[i].priority() == k
}

/// The ready set is empty exactly when no task waits.
pub proof fn lemma_ready_empty(ready: Map<(u32, u64), Task>, waiting: Seq<Task>)
    requires
        holds_exactly(ready, waiting),
        ready.dom().finite(),
    ensures
        ready.is_empty() <==> waiting.len() == 0,
        ready.dom().len() == 0 <==> waiting.len() == 0,
{
    if waiting.len() > 0 {
        assert(ready.contains_key(waiting[0].priority()));
    } else {
        assert forall|k: (u32, u64)| !ready.dom().contains(k) by {
            if ready.contains_key(k) {
                let i = choose|i: int|
                    0 <= i < waiting.len() && #[trigger] waiting[i].priority() == k;
            }
        }
        assert(ready.dom() =~= Set::empty());
    }
}

/// Entering one more task, whose id is new, under its priority.
pub proof fn lemma_ready_after_insert(ready: Map<(u32, u64), Task>, waiting: Seq<Task>, task: Task)
    requires
        holds_exactly(ready, waiting),
        distinct_ids(waiting.push(task)),
    ensures
        holds_exactly(ready.insert(task.priority(), task), waiting.push(task)),
{
    let grown = waiting.push(task);
    let entered = ready.insert(task.priority(), task);
    assert forall|i: int| 0 <= i < grown.len() implies entered.contains_key(
        #[trigger] grown[i].priority(),
    ) && entered[grown[i].priority()] == grown[i] by {
        if i < waiting.len() {
            assert(grown[i] == waiting[i]);
            assert(grown[i].id != grown[waiting.len() as int].id);
        }
    }
    assert forall|k: (u32, u64)| #[trigger] entered.contains_key(k) implies exists|i: int|
        0 <= i < grown.len() && #[trigger] grown[i].priority() == k by {
        if k == task.priority() {
            assert(grown[waiting.len() as int].priority() == k);
        } else {
            assert(ready.contains_key(k));
            let i = choose|i: int| 0 <= i < waiting.len() && #[trigger] waiting[i].priority() == k;
            assert(grown[i].priority() == k);
        }
    }
}

/// Taking out the task at position `i` of `waiting` by its priority.
pub proof fn lemma_ready_after_remove(ready: Map<(u32, u64), Task>, waiting: Seq<Task>, i: int)
    requires
        holds_exactly(ready, waiting),
        distinct_ids(waiting),
        0 <= i < waiting.len(),
    ensures
        holds_exactly(ready.remove(waiting[i].priority()), waiting.remove(i)),
{
    let left = waiting.remove(i);
    let k = waiting[i].priority();
    let taken = ready.remove(k);
    assert forall|a: int| 0 <= a < left.len() implies taken.contains_key(
        #[trigger] left[a].priority(),
    ) && taken[left[a].priority()] == left[a] by {
        let w = if a < i { a } else { a + 1 };
        assert(left[a] == waiting[w]);
        assert(waiting[w].id != waiting[i].id);
        assert(ready.contains_key(waiting[w].priority()));
    }
    assert forall|j: (u32, u64)| #[trigger] taken.contains_key(j) implies exists|a: int|
        0 <= a < left.len() && #[trigger] left[a].priority() == j by {
        assert(ready.contains_key(j));
        let w = choose|w: int| 0 <= w < waiting.len() && #[trigger] waiting[w].priority() == j;
        let a = if w < i { w } else { w - 1 };
        assert(left[a] == waiting[w]);
        assert(left[a].priority() == j);
    }
}

/// The task under the least key is the one to start: it runs before all
/// the others that wait, and what has not arrived does not count.
pub proof fn lemma_least_key_is_next(
    ready: Map<(u32, u64), Task>,
    waiting: Seq<Task>,
    backlog: Seq<Task>,
    now: int,
    k: (u32, u64),
) -> (i: int)
    requires
        holds_exactly(ready, waiting),
        is_least_key(ready, k),
        distinct_ids(waiting + backlog),
        forall|j: int| 0 <= j < waiting.len() ==> (#[trigger] waiting[j]).arrived_by(now),
        forall|j: int| 0 <= j < backlog.len() ==> !(#[trigger] backlog[j]).arrived_by(now),
    ensures
        0 <= i < waiting.len(),
        waiting[i] == ready[k],
        waiting[i].priority() == k,
        is_next(waiting + backlog, now, i),
{
    let pending = waiting + backlog;
    let i = choose|i: int| 0 <= i < waiting.len() && #[trigger] waiting[i].priority() == k;
    lemma_least_key_runs_first(ready, k);
    assert(pending[i] == waiting[i]);
    assert forall|j: int|
        0 <= j < pending.len() && j != i && pending[j].arrived_by(now) implies pending[i].runs_before(
        #[trigger] pending[j],
    ) by {
        if j < waiting.len() {
            assert(pending[j] == waiting[j]);
            assert(pending[i].id != pending[j].id);
            assert(ready.contains_key(waiting[j].priority()));
            assert(key_before(k, waiting[j].priority()));
        } else {
            assert(pending[j] == backlog[j - waiting.len()]);
        }
    }
    i
}

} // verus!
