//! Handles to slots of the currently executing task, and the two
//! slot-addressing entry points used by in-progress bodies: by explicit key,
//! or positionally by value type. Both reuse the slot index the previous
//! execution used for the same logical identity, so re-executions keep their
//! data in the same cells.

use vstd::prelude::*;

use crate::engine::slot_sweep_frame;
use crate::engine::Engine;
use crate::ids::RawVc;
use crate::ids::TaskId;
use crate::ids::ValueTypeId;
use crate::slots::SlotContent;

verus! {

/// The decision `compare_and_update_shared` takes: keep an equal value, or
/// store the new one.
pub open spec fn compare_update_decision(old_content: Option<u64>, new_content: u64) -> Option<
    u64,
> {
    if old_content == Some(new_content) {
        None
    } else {
        Some(new_content)
    }
}

/// A reference to one slot of the task currently executing.
#[derive(Clone, Copy, PartialEq, Eq, Structural, Debug)]
pub struct CurrentSlotRef {
    pub current_task: TaskId,
    pub index: usize,
    pub type_id: ValueTypeId,
}

impl CurrentSlotRef {
    /// The referenced slot exists in the engine.
    pub open spec fn valid(self, e: Engine) -> bool {
        self.current_task < e.n() && self.index < e.tasks@[self.current_task as
            int].state.slots@.len()
    }

    /// Stores `new_content` into the referenced slot and invalidates every
    /// reader of that slot (the owner itself excepted).
    pub fn update_shared(&self, e: &mut Engine, new_content: u64)
        requires
            old(e).wf(),
            self.valid(*old(e)),
        ensures
            final(e).wf(),
            final(e).tasks@[self.current_task as int].state.slots@[self.index as int].content
                == SlotContent::Shared(self.type_id, new_content),
            slot_sweep_frame(*old(e), *final(e), self.current_task as int, self.index as int),
            forall|d: TaskId|
                old(e).tasks@[self.current_task as int].state.slots@[self.index as
                    int].dependent_tasks@.contains(d) && d != self.current_task
                    ==> crate::engine::reader_invalidated(*old(e), *final(e), d as int),
    {
        e.update_task_slot(
            self.current_task,
            self.index,
            SlotContent::Shared(self.type_id, new_content),
        )
    }

    /// Reads the referenced slot, hands the value (cast to this reference's
    /// value type) to `functor`, and commits the update it returns, if any.
    /// Committing invalidates the slot's readers; returning `None` leaves the
    /// engine untouched.
    pub fn conditional_update_shared<F: FnOnce(Option<u64>) -> Option<u64>>(
        &self,
        e: &mut Engine,
        functor: F,
    )
        requires
            old(e).wf(),
            self.valid(*old(e)),
            old(e).current_task == Some(self.current_task),
            call_requires(
                functor,
                (old(e).tasks@[self.current_task as int].state.slots@[self.index as
                    int].content.cast(self.type_id),),
            ),
        ensures
            final(e).wf(),
            exists|u: Option<u64>|
                {
                    &&& call_ensures(
                        functor,
                        (old(e).tasks@[self.current_task as int].state.slots@[self.index as
                            int].content.cast(self.type_id),),
                        u,
                    )
                    &&& (u is None ==> *final(e) == *old(e))
                    &&& (forall|v: u64|
                        u == Some(v) ==> {
                            &&& final(e).tasks@[self.current_task as
                                int].state.slots@[self.index as int].content
                                == SlotContent::Shared(self.type_id, v)
                            &&& slot_sweep_frame(
                                *old(e),
                                *final(e),
                                self.current_task as int,
                                self.index as int,
                            )
                        })
                },
    {
        let content = e.read_current_task_slot(self.index);
        let cast = content.try_cast(self.type_id);
        let update = functor(cast);
        match update {
            Some(v) => {
                self.update_shared(e, v);
            },
            None => {
            },
        }
    }

    /// Stores `new_content` unless the slot already holds an equal value of
    /// this reference's type; an equal value causes no update and therefore
    /// no invalidation of the slot's readers.
    pub fn compare_and_update_shared(&self, e: &mut Engine, new_content: u64)
        requires
            old(e).wf(),
            self.valid(*old(e)),
            old(e).current_task == Some(self.current_task),
        ensures
            final(e).wf(),
            old(e).tasks@[self.current_task as int].state.slots@[self.index as int].content.cast(
                self.type_id,
            ) == Some(new_content) ==> *final(e) == *old(e),
            old(e).tasks@[self.current_task as int].state.slots@[self.index as int].content.cast(
                self.type_id,
            ) != Some(new_content) ==> {
                &&& final(e).tasks@[self.current_task as int].state.slots@[self.index as
                    int].content == SlotContent::Shared(self.type_id, new_content)
                &&& slot_sweep_frame(
                    *old(e),
                    *final(e),
                    self.current_task as int,
                    self.index as int,
                )
            },
    {
        let decide = |old_content: Option<u64>| -> (r: Option<u64>)
            ensures
                r == compare_update_decision(old_content, new_content),
            {
                match old_content {
                    Some(v) => {
                        if v == new_content {
                            None
                        } else {
                            Some(new_content)
                        }
                    },
                    None => Some(new_content),
                }
            };
        self.conditional_update_shared(e, decide);
    }
}

impl From<CurrentSlotRef> for RawVc {
    /// A slot reference is addressable as a plain handle.
    fn from(slot: CurrentSlotRef) -> (r: RawVc) {
        RawVc::TaskSlot(slot.current_task, slot.index)
    }
}

impl vstd::std_specs::convert::FromSpecImpl<CurrentSlotRef> for RawVc {
    open spec fn obeys_from_spec() -> bool {
        true
    }

    open spec fn from_spec(slot: CurrentSlotRef) -> RawVc {
        RawVc::TaskSlot(slot.current_task, slot.index)
    }
}

/// Serves a slot request with explicit identity (value type, key) for the
/// currently executing task: the index recorded by the previous execution is
/// reused; a new identity gets a fresh slot, recorded for later executions.
pub fn find_slot_by_key(e: &mut Engine, type_id: ValueTypeId, key: u64) -> (r: CurrentSlotRef)
    requires
        old(e).wf(),
        old(e).current_task is Some,
    ensures
        final(e).wf(),
        final(e).current_task == old(e).current_task,
        r.current_task == old(e).current_task->0,
        r.type_id == type_id,
        r.valid(*final(e)),
        final(e).current_prev.key_index(type_id, key) == Some(r.index),
        old(e).current_prev.has_key(type_id, key) ==> {
            &&& old(e).current_prev.key_index(type_id, key) == Some(r.index)
            &&& *final(e) == *old(e)
        },
        !old(e).current_prev.has_key(type_id, key) ==> {
            &&& r.index == old(e).tasks@[r.current_task as int].state.slots@.len()
            &&& final(e).tasks@[r.current_task as int].state.slots@.len() == r.index + 1
        },
        forall|t2: ValueTypeId, k2: u64|
            !(t2 == type_id && k2 == key) ==> final(e).current_prev.key_index(t2, k2) == old(e).current_prev.key_index(t2, k2),
        forall|t2: ValueTypeId|
            final(e).current_prev.type_cursor(t2) == old(e).current_prev.type_cursor(t2) && final(e).current_prev.type_list(t2) == old(e).current_prev.type_list(t2),
{
    let ghost pre0 = *old(e);
    let cur = match e.current() {
        Some(c) => c,
        None => {
            proof {
                assert(false);
            }
            0
        },
    };
    let fresh = e.task(cur).state.slots.len();
    let mut prev = crate::prev_slots::PrevSlots::empty();
    core::mem::swap(&mut prev, &mut e.current_prev);
    proof {
        lemma_engine_wf_empty_prev(pre0, *e);
    }
    let (index, used_fresh) = prev.key_next(type_id, key, fresh);
    if used_fresh {
        let got = e.get_fresh_slot(cur);
    }
    core::mem::swap(&mut prev, &mut e.current_prev);
    proof {
        if used_fresh {
            assert(e.tasks@[cur as int].state.slots@.len() == fresh + 1);
        } else {
            assert(e.current_prev == pre0.current_prev);
            assert(pre0.current_prev.wf(pre0.tasks@[cur as int].state.slots@.len()));
        }
        assert(e.current_prev.wf(e.tasks@[cur as int].state.slots@.len()));
        assert forall|x: int| 0 <= x < e.n() implies e.activity_ok(x) by {
            assert(pre0.activity_ok(x));
        }
        if !used_fresh {
            assert(*e =~= pre0) by {
                assert(e.tasks == pre0.tasks);
            }
        }
    }
    CurrentSlotRef { current_task: cur, index, type_id }
}

/// Serves a positional slot request for `type_id` in the currently executing
/// task: the n-th request for a value type within one execution reuses the
/// n-th index recorded by the previous execution; past its end, a fresh slot
/// is appended and recorded.
pub fn find_slot_by_type(e: &mut Engine, type_id: ValueTypeId) -> (r: CurrentSlotRef)
    requires
        old(e).wf(),
        old(e).current_task is Some,
    ensures
        final(e).wf(),
        final(e).current_task == old(e).current_task,
        r.current_task == old(e).current_task->0,
        r.type_id == type_id,
        r.valid(*final(e)),
        final(e).current_prev.type_cursor(type_id) == old(e).current_prev.type_cursor(type_id) + 1,
        final(e).current_prev.type_list(type_id)[old(e).current_prev.type_cursor(type_id) as int]
            == r.index,
        old(e).current_prev.type_cursor(type_id) < old(e).current_prev.type_list(type_id).len()
            ==> {
            &&& r.index == old(e).current_prev.type_list(type_id)[old(e).current_prev.type_cursor(type_id) as int]
            &&& final(e).current_prev.type_list(type_id) == old(e).current_prev.type_list(type_id)
            &&& final(e).tasks == old(e).tasks
        },
        old(e).current_prev.type_cursor(type_id) == old(e).current_prev.type_list(type_id).len()
            ==> {
            &&& r.index == old(e).tasks@[r.current_task as int].state.slots@.len()
            &&& final(e).tasks@[r.current_task as int].state.slots@.len() == r.index + 1
            &&& final(e).current_prev.type_list(type_id) == old(e).current_prev.type_list(
                type_id,
            ).push(r.index)
        },
        forall|t2: ValueTypeId|
            t2 != type_id ==> final(e).current_prev.type_cursor(t2) == old(e).current_prev.type_cursor(t2) && final(e).current_prev.type_list(t2) == old(e).current_prev.type_list(t2),
        forall|t2: ValueTypeId, k2: u64|
            final(e).current_prev.key_index(t2, k2) == old(e).current_prev.key_index(t2, k2),
{
    let ghost pre0 = *old(e);
    let cur = match e.current() {
        Some(c) => c,
        None => {
            proof {
                assert(false);
            }
            0
        },
    };
    let fresh = e.task(cur).state.slots.len();
    let mut prev = crate::prev_slots::PrevSlots::empty();
    core::mem::swap(&mut prev, &mut e.current_prev);
    proof {
        lemma_engine_wf_empty_prev(pre0, *e);
    }
    let (index, used_fresh) = prev.type_next(type_id, fresh);
    if used_fresh {
        let got = e.get_fresh_slot(cur);
    }
    core::mem::swap(&mut prev, &mut e.current_prev);
    proof {
        if used_fresh {
            assert(e.tasks@[cur as int].state.slots@.len() == fresh + 1);
        } else {
            assert(e.current_prev.wf(fresh as nat));
            assert(e.tasks@[cur as int].state.slots@.len() == fresh);
        }
        assert(e.current_prev.wf(e.tasks@[cur as int].state.slots@.len()));
        assert forall|x: int| 0 <= x < e.n() implies e.activity_ok(x) by {
            assert(pre0.activity_ok(x));
        }
    }
    CurrentSlotRef { current_task: cur, index, type_id }
}

/// Swapping an empty previous-slot mapping into the context keeps the engine
/// well-formed: the mapping constrains nothing.
proof fn lemma_engine_wf_empty_prev(pre: Engine, post: Engine)
    requires
        pre.wf(),
        post.tasks == pre.tasks,
        post.scheduled == pre.scheduled,
        post.deferred_activations == pre.deferred_activations,
        post.deferred_deactivations == pre.deferred_deactivations,
        post.deferred_removals == pre.deferred_removals,
        post.current_task == pre.current_task,
        post.captured == pre.captured,
        post.current_task is Some,
        post.current_prev.by_key@.len() == 0,
        post.current_prev.by_type@.len() == 0,
    ensures
        post.wf(),
{
    assert forall|x: int| 0 <= x < post.n() implies post.activity_ok(x) by {
        assert(pre.activity_ok(x));
    }
    let c = post.current_task->0;
    assert(post.current_prev.wf(post.tasks@[c as int].state.slots@.len()));
}

} // verus!
