//! The task registry: background and event-driven tasks, each under a fresh identifier.

use std::collections::HashMap;

use vstd::prelude::*;

use crate::task_id::{is_random_uuid, TaskId};
use vstd::set_lib::lemma_len_subset;

verus! {

broadcast use vstd::std_specs::hash::group_hash_axioms;

/// The map from identifiers to tasks that a hash map keyed by identifier values stands for.
pub open spec fn by_task_id<T>(tasks: Map<u128, T>) -> Map<TaskId, T> {
    Map::new(|id: TaskId| tasks.contains_key(id.0), |id: TaskId| tasks[id.0])
}

/// The `k`-th spare identifier: a version-4 UUID value whose random bits hold `k` (its low 62
/// bits in bits 0 to 61, its top two bits in bits 80 and 81).
pub open spec fn spare_id(k: u64) -> u128 {
    0x4000_8000_0000_0000_0000u128 | ((k as u128) & 0x3FFF_FFFF_FFFF_FFFFu128) | (((k as u128)
        >> 62u128) << 80u128)
}

proof fn lemma_spare_id_is_random_uuid(k: u64)
    ensures
        is_random_uuid(spare_id(k)),
{
    let v = spare_id(k);
    assert((v >> 76u128) & 0xf == 4 && (v >> 62u128) & 0x3 == 2) by (bit_vector)
        requires
            v == 0x4000_8000_0000_0000_0000u128 | ((k as u128) & 0x3FFF_FFFF_FFFF_FFFFu128) | (((k as u128)
                >> 62u128) << 80u128),
    ;
}

proof fn lemma_spare_ids_distinct(a: u64, b: u64)
    requires
        spare_id(a) == spare_id(b),
    ensures
        a == b,
{
    let va = spare_id(a);
    let vb = spare_id(b);
    assert(a == b) by (bit_vector)
        requires
            va == 0x4000_8000_0000_0000_0000u128 | ((a as u128) & 0x3FFF_FFFF_FFFF_FFFFu128) | (((a as u128)
                >> 62u128) << 80u128),
            vb == 0x4000_8000_0000_0000_0000u128 | ((b as u128) & 0x3FFF_FFFF_FFFF_FFFFu128) | (((b as u128)
                >> 62u128) << 80u128),
            va == vb,
    ;
}

/// A random version-4 identifier that is not yet a key of `tasks`. It draws one with
/// `TaskId::new`; in the unlikely case that the draw is taken, it takes the first spare identifier
/// that is free, and one of the first `tasks.len() + 1` spare identifiers always is.
fn fresh_task_id<T>(tasks: &HashMap<u128, T>) -> (id: TaskId)
    ensures
        is_random_uuid(id.0),
        !tasks@.contains_key(id.0),
{
    let drawn = TaskId::new();
    if !tasks.contains_key(&drawn.0) {
        return drawn;
    }
    let n = tasks.len();
    let mut k: usize = 0;
    let ghost mut taken: Set<u128> = Set::empty();
    loop
        invariant
            n == tasks@.len(),
            tasks@.dom().finite(),
            k <= n,
            taken.finite(),
            taken.len() == k,
            taken.subset_of(tasks@.dom()),
            forall|v: u128| #[trigger] taken.contains(v) ==> exists|j: u64| j < k && v == spare_id(j),
        decreases n - k,
    {
        let spare: u128 = 0x4000_8000_0000_0000_0000u128 | ((k as u64 as u128) & 0x3FFF_FFFF_FFFF_FFFFu128) | (((k as u64 as u128) >> 62u128) << 80u128);
        assert(spare == spare_id(k as u64));
        if !tasks.contains_key(&spare) {
            proof {
                lemma_spare_id_is_random_uuid(k as u64);
            }
            return TaskId(spare);
        }
        proof {
            if taken.contains(spare) {
                let j = choose|j: u64| j < k && spare == spare_id(j);
                lemma_spare_ids_distinct(j, k as u64);
            }
            let more = taken.insert(spare);
            lemma_len_subset(more, tasks@.dom());
            assert forall|v: u128| #[trigger] more.contains(v) implies exists|j: u64| j < k + 1 && v == spare_id(j) by {
                if v == spare {
                    assert(spare == spare_id(k as u64));
                } else {
                    assert(taken.contains(v));
                    let j = choose|j: u64| j < k && v == spare_id(j);
                    assert(j < k + 1 && v == spare_id(j));
                }
            }
            taken = more;
        }
        k = k + 1;
    }
}

/// Registered tasks: handles of background tasks (`B`) and of event-driven tasks (`V`), each
/// under the identifier it was registered with.
pub struct TaskRegistry<B, V> {
    background_tasks: HashMap<u128, B>,
    event_tasks: HashMap<u128, V>,
}

impl<B, V> TaskRegistry<B, V> {
    /// The registered background tasks by identifier.
    pub closed spec fn background_tasks(self) -> Map<TaskId, B> {
        by_task_id(self.background_tasks@)
    }

    /// The registered event-driven tasks by identifier.
    pub closed spec fn event_tasks(self) -> Map<TaskId, V> {
        by_task_id(self.event_tasks@)
    }

    /// An empty registry.
    pub fn new() -> (registry: Self)
        ensures
            registry.background_tasks() == Map::<TaskId, B>::empty(),
            registry.event_tasks() == Map::<TaskId, V>::empty(),
    {
        let registry = TaskRegistry { background_tasks: HashMap::new(), event_tasks: HashMap::new() };
        proof {
            assert(registry.background_tasks() =~= Map::<TaskId, B>::empty());
            assert(registry.event_tasks() =~= Map::<TaskId, V>::empty());
        }
        registry
    }

    /// Registers a background task under a fresh random identifier and returns that identifier.
    pub fn register_background_task(&mut self, task: B) -> (id: TaskId)
        ensures
            is_random_uuid(id.0),
            !old(self).background_tasks().contains_key(id),
            final(self).background_tasks() == old(self).background_tasks().insert(id, task),
            final(self).event_tasks() == old(self).event_tasks(),
    {
        let id = fresh_task_id(&self.background_tasks);
        self.background_tasks.insert(id.0, task);
        proof {
            assert(self.background_tasks() =~= old(self).background_tasks().insert(id, task));
        }
        id
    }

    /// Registers an event-driven task under a fresh random identifier and returns that
    /// identifier.
    pub fn register_event_task(&mut self, task: V) -> (id: TaskId)
        ensures
            is_random_uuid(id.0),
            !old(self).event_tasks().contains_key(id),
            final(self).event_tasks() == old(self).event_tasks().insert(id, task),
            final(self).background_tasks() == old(self).background_tasks(),
    {
        let id = fresh_task_id(&self.event_tasks);
        self.event_tasks.insert(id.0, task);
        proof {
            assert(self.event_tasks() =~= old(self).event_tasks().insert(id, task));
        }
        id
    }
}

impl<B: Clone, V: Clone> TaskRegistry<B, V> {
    /// A clone of the background task registered under `id`, if there is one.
    pub fn get_background_task(&self, id: &TaskId) -> (task: Option<B>)
        ensures
            task is Some <==> self.background_tasks().contains_key(*id),
            task matches Some(t) ==> cloned(self.background_tasks()[*id], t),
    {
        self.background_tasks.get(&id.0).cloned()
    }

    /// A clone of the event-driven task registered under `id`, if there is one.
    pub fn get_event_task(&self, id: &TaskId) -> (task: Option<V>)
        ensures
            task is Some <==> self.event_tasks().contains_key(*id),
            task matches Some(t) ==> cloned(self.event_tasks()[*id], t),
    {
        self.event_tasks.get(&id.0).cloned()
    }
}

impl<B, V> Default for TaskRegistry<B, V> {
    fn default() -> (registry: Self)
        ensures
            registry.background_tasks() == Map::<TaskId, B>::empty(),
            registry.event_tasks() == Map::<TaskId, V>::empty(),
    {
        Self::new()
    }
}


impl<B, V> TaskRegistry<B, V> {
    /// A registration overwrites nothing: the identifier it returns was not registered before,
    /// so afterwards the registry holds exactly the earlier tasks, each still under its own
    /// identifier, plus the new one.
    pub proof fn lemma_registration_overwrites_nothing(before: Self, after: Self, id: TaskId, task: B)
        requires
            !before.background_tasks().contains_key(id),
            after.background_tasks() == before.background_tasks().insert(id, task),
        ensures
            after.background_tasks().dom() == before.background_tasks().dom().insert(id),
            after.background_tasks().dom() != before.background_tasks().dom(),
            after.background_tasks()[id] == task,
            forall|other: TaskId| #[trigger] before.background_tasks().contains_key(other) ==> after.background_tasks()[other]
                == before.background_tasks()[other],
    {
        assert(after.background_tasks().dom().contains(id));
    }

    /// The same for event-driven tasks.
    pub proof fn lemma_event_registration_overwrites_nothing(before: Self, after: Self, id: TaskId, task: V)
        requires
            !before.event_tasks().contains_key(id),
            after.event_tasks() == before.event_tasks().insert(id, task),
        ensures
            after.event_tasks().dom() == before.event_tasks().dom().insert(id),
            after.event_tasks().dom() != before.event_tasks().dom(),
            after.event_tasks()[id] == task,
            forall|other: TaskId| #[trigger] before.event_tasks().contains_key(other) ==> after.event_tasks()[other]
                == before.event_tasks()[other],
    {
        assert(after.event_tasks().dom().contains(id));
    }

    /// What a registration writes is what a lookup reads: after a background task is registered
    /// under an identifier, the registry holds that task under it, and every other identifier
    /// keeps the task it had (or stays absent).
    pub proof fn lemma_background_read_after_register(before: Self, after: Self, id: TaskId, task: B)
        requires
            after.background_tasks() == before.background_tasks().insert(id, task),
        ensures
            after.background_tasks().contains_key(id),
            after.background_tasks()[id] == task,
            forall|other: TaskId|
                other != id ==> (#[trigger] after.background_tasks().contains_key(other)
                    <==> before.background_tasks().contains_key(other)),
            forall|other: TaskId|
                other != id && before.background_tasks().contains_key(other)
                    ==> #[trigger] after.background_tasks()[other] == before.background_tasks()[other],
    {
    }

    /// The same for event-driven tasks.
    pub proof fn lemma_event_read_after_register(before: Self, after: Self, id: TaskId, task: V)
        requires
            after.event_tasks() == before.event_tasks().insert(id, task),
        ensures
            after.event_tasks().contains_key(id),
            after.event_tasks()[id] == task,
            forall|other: TaskId|
                other != id ==> (#[trigger] after.event_tasks().contains_key(other)
                    <==> before.event_tasks().contains_key(other)),
            forall|other: TaskId|
                other != id && before.event_tasks().contains_key(other)
                    ==> #[trigger] after.event_tasks()[other] == before.event_tasks()[other],
    {
    }
}

} // verus!
