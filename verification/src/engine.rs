//! The execution and invalidation core: an arena of tasks, the ready queue of
//! scheduled work, the deferred activation/deactivation batches used to bound
//! recursive tree walks, and the context of the currently executing task.
//!
//! Cross-task bookkeeping keeps one eventual-consistency invariant: a task
//! whose activity flag disagrees with its parent count is always covered by a
//! pending deferred batch, so once every batch has drained,
//! `active == (active_parent_count > 0)` holds for every task.

use vstd::prelude::*;

use crate::events::listen;
use crate::events::new_event;
use crate::events::notify_all;
use crate::ids::FunctionId;
use crate::ids::RawVc;
use crate::ids::TaskId;
use crate::ids::TaskInput;
use crate::ids::TraitTypeId;
use crate::prev_slots::PrevSlots;
use crate::sets::clone_ids;
use crate::sets::id_set_insert;
use crate::sets::id_set_remove;
use crate::sets::no_dup;
use crate::sets::vc_set_insert;
use crate::slots::Output;
use crate::slots::OutputContent;
use crate::slots::Slot;
use crate::slots::SlotContent;
use crate::task::CallType;
use crate::task::Task;
use crate::task::TaskExecutionData;
use crate::task::TaskPhase;
use crate::task::TaskState;

verus! {

/// Depth up to which activation and deactivation walk the child tree on the
/// calling thread; deeper levels are handed off as deferred batches.
pub const DIRECT_WALK_DEPTH: usize = 4;

/// The task arena together with the queues that drive execution and the
/// context of the task currently running on this worker.
pub struct Engine {
    /// All tasks, indexed by their id.
    pub tasks: Vec<Task>,
    /// The ready queue: tasks in phase `Scheduled`, awaiting execution.
    pub scheduled: Vec<TaskId>,
    /// Tasks whose parent count rose from zero deeper than the direct-walk
    /// bound; their activation is completed by draining.
    pub deferred_activations: Vec<TaskId>,
    /// Tasks whose parent count fell to zero deeper than the direct-walk
    /// bound; their deactivation is completed by draining.
    pub deferred_deactivations: Vec<TaskId>,
    /// Former children detached by a starting execution, awaiting the release
    /// of the parent reference they still hold.
    pub deferred_removals: Vec<TaskId>,
    /// The task whose body is currently executing, if any.
    pub current_task: Option<TaskId>,
    /// Values read by the current execution; committed as the task's
    /// dependency set when the execution finishes.
    pub captured: Vec<RawVc>,
    /// The previous-slot mapping of the current execution, swapped in from
    /// the executing task with its cursors reset.
    pub current_prev: PrevSlots,
}

impl Engine {
    /// Number of tasks in the arena.
    pub open spec fn n(self) -> nat {
        self.tasks@.len()
    }

    /// The lifecycle phase of task `t`.
    pub open spec fn phase_of(self, t: int) -> TaskPhase {
        self.tasks@[t].state.phase
    }

    /// The activity flag of task `t`.
    pub open spec fn active_of(self, t: int) -> bool {
        self.tasks@[t].state.active
    }

    /// The parent reference count of task `t`.
    pub open spec fn parents_of(self, t: int) -> u32 {
        self.tasks@[t].active_parents
    }

    /// Whether a handle points at an existing task, and for a slot handle at
    /// an allocated slot of that task.
    pub open spec fn vc_ok(self, vc: RawVc) -> bool {
        match vc {
            RawVc::TaskOutput(t) => t < self.n(),
            RawVc::TaskSlot(t, i) => t < self.n() && i < self.tasks@[t as int].state.slots@.len(),
        }
    }

    /// A stale active flag on task `x` (parent count already zero) is covered
    /// by the deferred deactivation batch.
    pub open spec fn deact_cover_ok(self, x: int) -> bool {
        self.active_of(x) && self.parents_of(x) == 0 ==> self.deferred_deactivations@.contains(
            x as usize,
        )
    }

    /// A stale inactive flag on task `x` (parent count already positive) is
    /// covered by the deferred activation batch.
    pub open spec fn act_cover_ok(self, x: int) -> bool {
        !self.active_of(x) && self.parents_of(x) > 0 ==> self.deferred_activations@.contains(
            x as usize,
        )
    }

    /// Activity consistency of one task: a stale flag in either direction is
    /// covered by the matching deferred batch.
    pub open spec fn activity_ok(self, t: int) -> bool {
        self.deact_cover_ok(t) && self.act_cover_ok(t)
    }

    /// Every task is activity-consistent or covered by a deferred batch.
    pub open spec fn activity_inv(self) -> bool {
        forall|t: int| 0 <= t < self.n() ==> self.activity_ok(t)
    }

    /// Activity consistency everywhere, except that task `t` may have a stale
    /// inactive flag (it is about to be activated).
    pub open spec fn activity_inv_except_activation(self, t: int) -> bool {
        forall|x: int|
            0 <= x < self.n() ==> #[trigger] self.deact_cover_ok(x) && (x != t
                ==> self.act_cover_ok(x))
    }

    /// Activity consistency everywhere, except that task `t` may have a stale
    /// active flag (it is about to be deactivated).
    pub open spec fn activity_inv_except_deactivation(self, t: int) -> bool {
        forall|x: int|
            0 <= x < self.n() ==> #[trigger] self.act_cover_ok(x) && (x != t
                ==> self.deact_cover_ok(x))
    }

    /// Structural well-formedness of every task.
    pub open spec fn tasks_wf(self) -> bool {
        forall|t: int|
            0 <= t < self.n() ==> (#[trigger] self.tasks@[t]).wf(self.n()) && self.tasks@[t].id
                == t
    }

    /// Every committed dependency handle and output link points at an
    /// existing task and allocated slot.
    pub open spec fn targets_wf(self) -> bool {
        &&& forall|t: int, k: int|
            0 <= t < self.n() && 0 <= k < self.tasks@[t].execution.dependencies@.len()
                ==> self.vc_ok(#[trigger] self.tasks@[t].execution.dependencies@[k])
        &&& forall|t: int|
            0 <= t < self.n() ==> ((#[trigger] self.tasks@[t].state.output.content) matches
            OutputContent::Link(vc) ==> self.vc_ok(vc))
    }

    /// Every id in the work queues names an existing task.
    pub open spec fn queues_wf(self) -> bool {
        &&& forall|k: int|
            0 <= k < self.scheduled@.len() ==> (#[trigger] self.scheduled@[k]) < self.n()
        &&& forall|k: int|
            0 <= k < self.deferred_activations@.len() ==> (#[trigger] self.deferred_activations@[k])
                < self.n()
        &&& forall|k: int|
            0 <= k < self.deferred_deactivations@.len() ==> (
            #[trigger] self.deferred_deactivations@[k]) < self.n()
        &&& forall|k: int|
            0 <= k < self.deferred_removals@.len() ==> (#[trigger] self.deferred_removals@[k])
                < self.n()
    }

    /// The execution context is empty between executions and well-formed
    /// while one runs.
    pub open spec fn ctx_wf(self) -> bool {
        match self.current_task {
            None => {
                &&& self.captured@.len() == 0
                &&& self.current_prev.by_key@.len() == 0
                &&& self.current_prev.by_type@.len() == 0
            },
            Some(c) => {
                &&& c < self.n()
                &&& self.current_prev.wf(self.tasks@[c as int].state.slots@.len())
                &&& no_dup(self.captured@)
                &&& forall|k: int|
                    0 <= k < self.captured@.len() ==> self.vc_ok(#[trigger] self.captured@[k])
            },
        }
    }

    /// Full well-formedness of the engine.
    pub open spec fn wf(self) -> bool {
        &&& self.tasks_wf()
        &&& self.targets_wf()
        &&& self.queues_wf()
        &&& self.ctx_wf()
        &&& self.activity_inv()
    }

    /// A fresh engine with no tasks and no pending work.
    pub fn new() -> (e: Engine)
        ensures
            e.wf(),
            e.n() == 0,
            e.scheduled@.len() == 0,
            e.deferred_activations@.len() == 0,
            e.deferred_deactivations@.len() == 0,
            e.deferred_removals@.len() == 0,
            e.current_task is None,
    {
        Engine {
            tasks: Vec::new(),
            scheduled: Vec::new(),
            deferred_activations: Vec::new(),
            deferred_deactivations: Vec::new(),
            deferred_removals: Vec::new(),
            current_task: None,
            captured: Vec::new(),
            current_prev: PrevSlots::empty(),
        }
    }

    /// Appends a task to the arena. Inactive call types start dirty and
    /// unscheduled; root holders start active, scheduled and enqueued.
    fn push_task(&mut self, call: CallType, inputs: Vec<TaskInput>, rooted: bool) -> (t: TaskId)
        requires
            old(self).wf(),
            forall|j: int|
                0 <= j < inputs@.len() ==> ((#[trigger] inputs@[j]) matches TaskInput::Vc(vc)
                    ==> old(self).vc_ok(vc)),
        ensures
            final(self).wf(),
            t == old(self).n(),
            final(self).n() == old(self).n() + 1,
            forall|x: int| 0 <= x < old(self).n() ==> final(self).tasks@[x] == old(self).tasks@[x],
            final(self).tasks@[t as int].call == call,
            final(self).tasks@[t as int].inputs == inputs,
            final(self).tasks@[t as int].state.active == rooted,
            final(self).tasks@[t as int].active_parents == if rooted {
                1u32
            } else {
                0u32
            },
            final(self).phase_of(t as int) == if rooted {
                TaskPhase::Scheduled
            } else {
                TaskPhase::Dirty
            },
            final(self).tasks@[t as int].state.children@.len() == 0,
            final(self).tasks@[t as int].state.output.content matches OutputContent::Empty,
            final(self).tasks@[t as int].state.output.dependent_tasks@.len() == 0,
            final(self).tasks@[t as int].state.slots@.len() == 0,
            final(self).tasks@[t as int].state.executions == 0,
            final(self).tasks@[t as int].execution.dependencies@.len() == 0,
            final(self).tasks@[t as int].execution.previous_slots.by_key@.len() == 0,
            final(self).tasks@[t as int].execution.previous_slots.by_type@.len() == 0,
            rooted ==> final(self).scheduled@ == old(self).scheduled@.push(t),
            !rooted ==> final(self).scheduled@ == old(self).scheduled@,
            final(self).deferred_activations@ == old(self).deferred_activations@,
            final(self).deferred_deactivations@ == old(self).deferred_deactivations@,
            final(self).deferred_removals@ == old(self).deferred_removals@,
            final(self).current_task == old(self).current_task,
            final(self).captured@ == old(self).captured@,
            final(self).current_prev == old(self).current_prev,
    {
        let id = self.tasks.len();
        let task = Task {
            id,
            call,
            inputs,
            active_parents: if rooted {
                1
            } else {
                0
            },
            state: TaskState {
                active: rooted,
                phase: if rooted {
                    TaskPhase::Scheduled
                } else {
                    TaskPhase::Dirty
                },
                children: Vec::new(),
                output: Output::new(),
                slots: Vec::new(),
                event: new_event(),
                executions: 0,
            },
            execution: TaskExecutionData {
                dependencies: Vec::new(),
                previous_slots: PrevSlots::empty(),
            },
        };
        self.tasks.push(task);
        if rooted {
            self.scheduled.push(id);
        }
        proof {
            let pre = *old(self);
            let post = *self;
            assert(post.tasks@[id as int].wf(post.n()));
            assert forall|x: int| 0 <= x < post.n() implies (#[trigger] post.tasks@[x]).wf(post.n())
                && post.tasks@[x].id == x by {
                if x < pre.n() {
                    assert(pre.tasks@[x].wf(pre.n()));
                    lemma_task_wf_grow(pre.tasks@[x], pre.n(), post.n());
                }
            }
            assert forall|x: int| 0 <= x < post.n() implies post.activity_ok(x) by {
                if x < pre.n() {
                    assert(pre.activity_ok(x));
                }
            }
            assert forall|t2: int, k: int|
                0 <= t2 < post.n() && 0 <= k
                    < post.tasks@[t2].execution.dependencies@.len() implies post.vc_ok(
                #[trigger] post.tasks@[t2].execution.dependencies@[k],
            ) by {
                if t2 < pre.n() {
                    assert(pre.vc_ok(pre.tasks@[t2].execution.dependencies@[k]));
                }
            }
            assert forall|t2: int|
                0 <= t2 < post.n() implies ((#[trigger] post.tasks@[t2].state.output.content)
            matches OutputContent::Link(vc) ==> post.vc_ok(vc)) by {
                if t2 < pre.n() {
                    assert((pre.tasks@[t2].state.output.content matches OutputContent::Link(vc)
                        ==> pre.vc_ok(vc)));
                }
            }
            if pre.current_task is Some {
                let c = pre.current_task->0;
                assert forall|k: int| 0 <= k < post.captured@.len() implies post.vc_ok(
                    #[trigger] post.captured@[k],
                ) by {
                    assert(pre.vc_ok(pre.captured@[k]));
                }
            }
        }
        id
    }

    /// Creates a task executing a registered native function.
    pub fn new_native(&mut self, inputs: Vec<TaskInput>, native_fn: FunctionId) -> (t: TaskId)
        requires
            old(self).wf(),
            forall|j: int|
                0 <= j < inputs@.len() ==> ((#[trigger] inputs@[j]) matches TaskInput::Vc(vc)
                    ==> old(self).vc_ok(vc)),
        ensures
            final(self).wf(),
            t == old(self).n(),
            final(self).n() == old(self).n() + 1,
            forall|x: int| 0 <= x < old(self).n() ==> final(self).tasks@[x] == old(self).tasks@[x],
            final(self).tasks@[t as int].call == CallType::Native(native_fn),
            final(self).tasks@[t as int].inputs == inputs,
            !final(self).active_of(t as int),
            final(self).parents_of(t as int) == 0,
            final(self).phase_of(t as int) == TaskPhase::Dirty,
            final(self).scheduled@ == old(self).scheduled@,
            final(self).tasks@[t as int].state.children@.len() == 0,
            final(self).tasks@[t as int].state.output.content matches OutputContent::Empty,
            final(self).tasks@[t as int].state.output.dependent_tasks@.len() == 0,
            final(self).tasks@[t as int].state.slots@.len() == 0,
            final(self).tasks@[t as int].state.executions == 0,
            final(self).tasks@[t as int].execution.dependencies@.len() == 0,
            final(self).tasks@[t as int].execution.previous_slots.by_key@.len() == 0,
            final(self).tasks@[t as int].execution.previous_slots.by_type@.len() == 0,
    {
        self.push_task(CallType::Native(native_fn), inputs, false)
    }

    /// Creates a resolve task for a native function: it will resolve every
    /// argument, then issue the underlying call.
    pub fn new_resolve_native(&mut self, inputs: Vec<TaskInput>, native_fn: FunctionId) -> (t:
        TaskId)
        requires
            old(self).wf(),
            forall|j: int|
                0 <= j < inputs@.len() ==> ((#[trigger] inputs@[j]) matches TaskInput::Vc(vc)
                    ==> old(self).vc_ok(vc)),
        ensures
            final(self).wf(),
            t == old(self).n(),
            final(self).n() == old(self).n() + 1,
            forall|x: int| 0 <= x < old(self).n() ==> final(self).tasks@[x] == old(self).tasks@[x],
            final(self).tasks@[t as int].call == CallType::ResolveNative(native_fn),
            final(self).tasks@[t as int].inputs == inputs,
            !final(self).active_of(t as int),
            final(self).phase_of(t as int) == TaskPhase::Dirty,
            final(self).scheduled@ == old(self).scheduled@,
            final(self).tasks@[t as int].state.children@.len() == 0,
            final(self).tasks@[t as int].state.output.content matches OutputContent::Empty,
            final(self).tasks@[t as int].state.output.dependent_tasks@.len() == 0,
            final(self).tasks@[t as int].state.slots@.len() == 0,
            final(self).tasks@[t as int].state.executions == 0,
            final(self).tasks@[t as int].execution.dependencies@.len() == 0,
            final(self).tasks@[t as int].execution.previous_slots.by_key@.len() == 0,
            final(self).tasks@[t as int].execution.previous_slots.by_type@.len() == 0,
    {
        self.push_task(CallType::ResolveNative(native_fn), inputs, false)
    }

    /// Creates a trait-method resolve task: it will resolve the first
    /// (`self`) argument and look the method up on its dynamic type.
    pub fn new_resolve_trait(
        &mut self,
        trait_type: TraitTypeId,
        trait_fn_name: String,
        inputs: Vec<TaskInput>,
    ) -> (t: TaskId)
        requires
            old(self).wf(),
            forall|j: int|
                0 <= j < inputs@.len() ==> ((#[trigger] inputs@[j]) matches TaskInput::Vc(vc)
                    ==> old(self).vc_ok(vc)),
        ensures
            final(self).wf(),
            t == old(self).n(),
            final(self).n() == old(self).n() + 1,
            forall|x: int| 0 <= x < old(self).n() ==> final(self).tasks@[x] == old(self).tasks@[x],
            final(self).tasks@[t as int].call == CallType::ResolveTrait(trait_type, trait_fn_name),
            final(self).tasks@[t as int].inputs == inputs,
            !final(self).active_of(t as int),
            final(self).phase_of(t as int) == TaskPhase::Dirty,
            final(self).scheduled@ == old(self).scheduled@,
            final(self).tasks@[t as int].state.children@.len() == 0,
            final(self).tasks@[t as int].state.output.content matches OutputContent::Empty,
            final(self).tasks@[t as int].state.output.dependent_tasks@.len() == 0,
            final(self).tasks@[t as int].state.slots@.len() == 0,
            final(self).tasks@[t as int].state.executions == 0,
            final(self).tasks@[t as int].execution.dependencies@.len() == 0,
            final(self).tasks@[t as int].execution.previous_slots.by_key@.len() == 0,
            final(self).tasks@[t as int].execution.previous_slots.by_type@.len() == 0,
    {
        self.push_task(CallType::ResolveTrait(trait_type, trait_fn_name), inputs, false)
    }

    /// Creates a root task: active from the start, holding its own parent
    /// reference, scheduled immediately.
    pub fn new_root(&mut self) -> (t: TaskId)
        requires
            old(self).wf(),
        ensures
            final(self).wf(),
            t == old(self).n(),
            final(self).n() == old(self).n() + 1,
            forall|x: int| 0 <= x < old(self).n() ==> final(self).tasks@[x] == old(self).tasks@[x],
            final(self).tasks@[t as int].call == CallType::Root,
            final(self).active_of(t as int),
            final(self).parents_of(t as int) == 1,
            final(self).phase_of(t as int) == TaskPhase::Scheduled,
            final(self).scheduled@ == old(self).scheduled@.push(t),
            final(self).tasks@[t as int].state.children@.len() == 0,
            final(self).tasks@[t as int].state.output.content matches OutputContent::Empty,
            final(self).tasks@[t as int].state.output.dependent_tasks@.len() == 0,
            final(self).tasks@[t as int].state.slots@.len() == 0,
            final(self).tasks@[t as int].state.executions == 0,
            final(self).tasks@[t as int].execution.dependencies@.len() == 0,
            final(self).tasks@[t as int].execution.previous_slots.by_key@.len() == 0,
            final(self).tasks@[t as int].execution.previous_slots.by_type@.len() == 0,
    {
        self.push_task(CallType::Root, Vec::new(), true)
    }

    /// Creates a once task: active, scheduled immediately, and never dirtied
    /// again after its single run.
    pub fn new_once(&mut self) -> (t: TaskId)
        requires
            old(self).wf(),
        ensures
            final(self).wf(),
            t == old(self).n(),
            final(self).n() == old(self).n() + 1,
            forall|x: int| 0 <= x < old(self).n() ==> final(self).tasks@[x] == old(self).tasks@[x],
            final(self).tasks@[t as int].call == CallType::Once,
            final(self).active_of(t as int),
            final(self).parents_of(t as int) == 1,
            final(self).phase_of(t as int) == TaskPhase::Scheduled,
            final(self).scheduled@ == old(self).scheduled@.push(t),
            final(self).tasks@[t as int].state.children@.len() == 0,
            final(self).tasks@[t as int].state.output.content matches OutputContent::Empty,
            final(self).tasks@[t as int].state.output.dependent_tasks@.len() == 0,
            final(self).tasks@[t as int].state.slots@.len() == 0,
            final(self).tasks@[t as int].state.executions == 0,
            final(self).tasks@[t as int].execution.dependencies@.len() == 0,
            final(self).tasks@[t as int].execution.previous_slots.by_key@.len() == 0,
            final(self).tasks@[t as int].execution.previous_slots.by_type@.len() == 0,
    {
        self.push_task(CallType::Once, Vec::new(), true)
    }

    /// Borrow a task for inspection.
    pub fn task(&self, t: TaskId) -> (r: &Task)
        requires
            t < self.n(),
        ensures
            *r == self.tasks@[t as int],
    {
        &self.tasks[t]
    }

    /// Number of tasks in the arena.
    pub fn task_count(&self) -> (r: usize)
        ensures
            r == self.n(),
    {
        self.tasks.len()
    }

    /// Pops the next ready task from the schedule queue, if any.
    pub fn pop_scheduled(&mut self) -> (r: Option<TaskId>)
        requires
            old(self).wf(),
        ensures
            final(self).wf(),
            *final(self) == (Engine { scheduled: final(self).scheduled, ..*old(self) }),
            old(self).scheduled@.len() == 0 ==> r is None && final(self).scheduled@ == old(self).scheduled@,
            old(self).scheduled@.len() > 0 ==> r == Some(old(self).scheduled@.last())
                && final(self).scheduled@ == old(self).scheduled@.drop_last(),
    {
        let r = self.scheduled.pop();
        proof {
            let pre = *old(self);
            if pre.scheduled@.len() == 0 {
                assert(self.scheduled@ =~= pre.scheduled@);
            }
            assert forall|k: int| 0 <= k < self.scheduled@.len() implies (
            #[trigger] self.scheduled@[k]) < self.n() by {
                assert(self.scheduled@[k] == pre.scheduled@[k]);
            }
            assert forall|x: int| 0 <= x < self.n() implies self.activity_ok(x) by {
                assert(pre.activity_ok(x));
            }
        }
        r
    }
}

/// The reader set `post` is `pre` with at most the reader `t` removed.
pub open spec fn reader_removed(pre: Seq<TaskId>, post: Seq<TaskId>, t: TaskId) -> bool {
    &&& forall|y: TaskId| y != t ==> ((#[trigger] post.contains(y)) <==> pre.contains(y))
    &&& (post.contains(t) ==> pre.contains(t))
}

/// The task `post` is `pre` with at most the reader `t` removed from its
/// output's and its slots' reader sets; everything else, including its own
/// committed dependencies, is unchanged.
pub open spec fn only_reader_removed(pre: Task, post: Task, t: TaskId) -> bool {
    &&& post.id == pre.id
    &&& post.call == pre.call
    &&& post.inputs == pre.inputs
    &&& post.active_parents == pre.active_parents
    &&& post.state.active == pre.state.active
    &&& post.state.phase == pre.state.phase
    &&& post.state.children == pre.state.children
    &&& post.state.event == pre.state.event
    &&& post.state.executions == pre.state.executions
    &&& post.execution == pre.execution
    &&& post.state.output.content == pre.state.output.content
    &&& reader_removed(
        pre.state.output.dependent_tasks@,
        post.state.output.dependent_tasks@,
        t,
    )
    &&& post.state.slots@.len() == pre.state.slots@.len()
    &&& forall|i: int|
        0 <= i < pre.state.slots@.len() ==> (#[trigger] post.state.slots@[i]).content
            == pre.state.slots@[i].content && reader_removed(
            pre.state.slots@[i].dependent_tasks@,
            post.state.slots@[i].dependent_tasks@,
            t,
        )
}

/// Like `only_reader_removed`, but for the invalidated task itself: its
/// committed dependency set is emptied and its phase follows the
/// invalidation table.
pub open spec fn dirtied_self(pre: Task, post: Task, t: TaskId) -> bool {
    &&& post.id == pre.id
    &&& post.call == pre.call
    &&& post.inputs == pre.inputs
    &&& post.active_parents == pre.active_parents
    &&& post.state.active == pre.state.active
    &&& post.state.phase == crate::task::invalidated_phase(pre.state.phase, pre.state.active)
    &&& post.state.children == pre.state.children
    &&& post.state.event == pre.state.event
    &&& post.state.executions == pre.state.executions
    &&& post.execution.dependencies@.len() == 0
    &&& post.execution.previous_slots == pre.execution.previous_slots
    &&& post.state.output.content == pre.state.output.content
    &&& reader_removed(
        pre.state.output.dependent_tasks@,
        post.state.output.dependent_tasks@,
        t,
    )
    &&& post.state.slots@.len() == pre.state.slots@.len()
    &&& forall|i: int|
        0 <= i < pre.state.slots@.len() ==> (#[trigger] post.state.slots@[i]).content
            == pre.state.slots@[i].content && reader_removed(
            pre.state.slots@[i].dependent_tasks@,
            post.state.slots@[i].dependent_tasks@,
            t,
        )
}

/// The whole effect of invalidating task `t` (which is not a `Once` task):
/// its dependencies are cleared, its phase steps by the invalidation table,
/// it is enqueued exactly when the table says so, and nothing else changes.
pub open spec fn dirtied(pre: Engine, post: Engine, t: int) -> bool {
    &&& post.n() == pre.n()
    &&& dirtied_self(pre.tasks@[t], post.tasks@[t], t as usize)
    &&& forall|k: int|
        0 <= k < pre.tasks@[t].execution.dependencies@.len() ==> back_edge_gone(
            post,
            #[trigger] pre.tasks@[t].execution.dependencies@[k],
            t as usize,
        )
    &&& forall|x: int|
        0 <= x < pre.n() && x != t ==> only_reader_removed(
            pre.tasks@[x],
            #[trigger] post.tasks@[x],
            t as usize,
        )
    &&& if crate::task::invalidation_schedules(pre.phase_of(t), pre.active_of(t)) {
        post.scheduled@ == pre.scheduled@.push(t as usize)
    } else {
        post.scheduled@ == pre.scheduled@
    }
    &&& post.deferred_activations == pre.deferred_activations
    &&& post.deferred_deactivations == pre.deferred_deactivations
    &&& post.deferred_removals == pre.deferred_removals
    &&& post.current_task == pre.current_task
    &&& post.captured == pre.captured
    &&& post.current_prev == pre.current_prev
}

/// The back edge of one former dependency is gone: the value `vc` points at
/// no longer lists `t` among its readers.
pub open spec fn back_edge_gone(e: Engine, vc: RawVc, t: TaskId) -> bool {
    match vc {
        RawVc::TaskOutput(d) => !e.tasks@[d as int].state.output.dependent_tasks@.contains(t),
        RawVc::TaskSlot(d, i) => !e.tasks@[d as int].state.slots@[i as
            int].dependent_tasks@.contains(t),
    }
}

impl Engine {
    /// Removes task `t` from the reader set of the value `vc` points at: the
    /// back edge of one former dependency.
    fn remove_dependent(&mut self, vc: RawVc, t: TaskId)
        requires
            old(self).wf(),
            t < old(self).n(),
            old(self).vc_ok(vc),
        ensures
            final(self).wf(),
            final(self).n() == old(self).n(),
            forall|x: int|
                0 <= x < old(self).n() ==> only_reader_removed(
                    old(self).tasks@[x],
                    #[trigger] final(self).tasks@[x],
                    t,
                ),
            back_edge_gone(*final(self), vc, t),
            *final(self) == (Engine { tasks: final(self).tasks, ..*old(self) }),
    {
        let ghost pre = *old(self);
        match vc {
            RawVc::TaskOutput(target) => {
                id_set_remove(&mut self.tasks[target].state.output.dependent_tasks, t);
            },
            RawVc::TaskSlot(target, i) => {
                id_set_remove(&mut self.tasks[target].state.slots[i].dependent_tasks, t);
            },
        }
        proof {
            let post = *self;
            assert forall|x: int| 0 <= x < pre.n() implies only_reader_removed(
                pre.tasks@[x],
                #[trigger] post.tasks@[x],
                t,
            ) by {
                if x != vc.task_id() as int {
                    assert(post.tasks@[x] == pre.tasks@[x]);
                }
            }
            assert forall|x: int| 0 <= x < post.n() implies (#[trigger] post.tasks@[x]).wf(
                post.n(),
            ) && post.tasks@[x].id == x by {
                assert(pre.tasks@[x].wf(pre.n()));
                if x == vc.task_id() as int {
                    assert(only_reader_removed(pre.tasks@[x], post.tasks@[x], t));
                    lemma_reader_ids_bounded(
                        pre.tasks@[x].state.output.dependent_tasks@,
                        post.tasks@[x].state.output.dependent_tasks@,
                        t,
                        post.n(),
                    );
                    assert forall|i: int|
                        0 <= i < post.tasks@[x].state.slots@.len() implies (
                    #[trigger] post.tasks@[x].state.slots@[i]).wf(post.n()) by {
                        assert(pre.tasks@[x].state.slots@[i].wf(pre.n()));
                        lemma_reader_ids_bounded(
                            pre.tasks@[x].state.slots@[i].dependent_tasks@,
                            post.tasks@[x].state.slots@[i].dependent_tasks@,
                            t,
                            post.n(),
                        );
                    }
                }
            }
            assert forall|x: int, k: int|
                0 <= x < post.n() && 0 <= k
                    < post.tasks@[x].execution.dependencies@.len() implies post.vc_ok(
                #[trigger] post.tasks@[x].execution.dependencies@[k],
            ) by {
                assert(pre.vc_ok(pre.tasks@[x].execution.dependencies@[k]));
            }
            assert forall|x: int|
                0 <= x < post.n() implies ((#[trigger] post.tasks@[x].state.output.content) matches
            OutputContent::Link(lvc) ==> post.vc_ok(lvc)) by {
                assert((pre.tasks@[x].state.output.content matches OutputContent::Link(lvc)
                    ==> pre.vc_ok(lvc)));
            }
            assert forall|x: int| 0 <= x < post.n() implies post.activity_ok(x) by {
                assert(pre.activity_ok(x));
            }
            if post.current_task is Some {
                assert forall|k: int| 0 <= k < post.captured@.len() implies post.vc_ok(
                    #[trigger] post.captured@[k],
                ) by {
                    assert(pre.vc_ok(pre.captured@[k]));
                }
                let c = post.current_task->0;
                assert(post.tasks@[c as int].state.slots@.len()
                    == pre.tasks@[c as int].state.slots@.len());
            }
        }
    }

    /// Removes the invalidated task from the reader sets of everything it depended on
    /// and empties its committed dependency set, so a later execution
    /// re-captures its dependencies from scratch.
    fn clear_dependencies(&mut self, t: TaskId)
        requires
            old(self).wf(),
            t < old(self).n(),
        ensures
            final(self).wf(),
            final(self).n() == old(self).n(),
            final(self).tasks@[t as int].execution.dependencies@.len() == 0,
            forall|x: int|
                0 <= x < old(self).n() && x != t ==> only_reader_removed(
                    old(self).tasks@[x],
                    #[trigger] final(self).tasks@[x],
                    t,
                ),
            only_reader_removed(
                (Task {
                    execution: TaskExecutionData {
                        dependencies: final(self).tasks@[t as int].execution.dependencies,
                        ..old(self).tasks@[t as int].execution
                    },
                    ..old(self).tasks@[t as int]
                }),
                final(self).tasks@[t as int],
                t,
            ),
            forall|k: int|
                0 <= k < old(self).tasks@[t as int].execution.dependencies@.len()
                    ==> back_edge_gone(
                    *final(self),
                    #[trigger] old(self).tasks@[t as int].execution.dependencies@[k],
                    t,
                ),
            *final(self) == (Engine { tasks: final(self).tasks, ..*old(self) }),
    {
        let ghost pre = *old(self);
        proof {
            let d0 = pre.tasks@[t as int].execution.dependencies@;
            assert(d0 =~= d0.subrange(0, d0.len() as int));
        }
        while self.tasks[t].execution.dependencies.len() > 0
            invariant
                pre.wf(),
                self.wf(),
                t < self.n(),
                self.n() == pre.n(),
                forall|x: int|
                    0 <= x < pre.n() && x != t ==> only_reader_removed(
                        pre.tasks@[x],
                        #[trigger] self.tasks@[x],
                        t,
                    ),
                only_reader_removed(
                    (Task {
                        execution: TaskExecutionData {
                            dependencies: self.tasks@[t as int].execution.dependencies,
                            ..pre.tasks@[t as int].execution
                        },
                        ..pre.tasks@[t as int]
                    }),
                    self.tasks@[t as int],
                    t,
                ),
                self.tasks@[t as int].execution.dependencies@.len() <= pre.tasks@[t as
                    int].execution.dependencies@.len(),
                self.tasks@[t as int].execution.dependencies@ == pre.tasks@[t as
                    int].execution.dependencies@.subrange(
                    0,
                    self.tasks@[t as int].execution.dependencies@.len() as int,
                ),
                forall|k: int|
                    self.tasks@[t as int].execution.dependencies@.len() <= k < pre.tasks@[t as
                        int].execution.dependencies@.len() ==> back_edge_gone(
                        *self,
                        #[trigger] pre.tasks@[t as int].execution.dependencies@[k],
                        t,
                    ),
                *self == (Engine { tasks: self.tasks, ..pre }),
            decreases self.tasks@[t as int].execution.dependencies@.len(),
        {
            let ghost loop_pre = *self;
            let vc_opt = self.tasks[t].execution.dependencies.pop();
            match vc_opt {
                None => {
                    proof {
                        assert(false);  // the loop condition guarantees a non-empty set
                    }
                },
                Some(vc) => {
                    proof {
                        assert(loop_pre.vc_ok(vc));
                        assert forall|x: int| 0 <= x < self.n() implies (
                        #[trigger] self.tasks@[x]).wf(self.n()) && self.tasks@[x].id == x by {
                            assert(loop_pre.tasks@[x].wf(loop_pre.n()));
                        }
                        assert forall|x: int, k: int|
                            0 <= x < self.n() && 0 <= k
                                < self.tasks@[x].execution.dependencies@.len() implies self.vc_ok(
                            #[trigger] self.tasks@[x].execution.dependencies@[k],
                        ) by {
                            if x == t {
                                assert(loop_pre.tasks@[x].execution.dependencies@[k]
                                    == self.tasks@[x].execution.dependencies@[k]);
                            }
                            assert(loop_pre.vc_ok(loop_pre.tasks@[x].execution.dependencies@[k]));
                        }
                        assert forall|x: int| 0 <= x < self.n() implies self.activity_ok(x) by {
                            assert(loop_pre.activity_ok(x));
                        }
                        if self.current_task is Some {
                            assert forall|k: int|
                                0 <= k < self.captured@.len() implies self.vc_ok(
                                #[trigger] self.captured@[k],
                            ) by {
                                assert(loop_pre.vc_ok(loop_pre.captured@[k]));
                            }
                        }
                        assert forall|x: int|
                            0 <= x < self.n() implies ((
                        #[trigger] self.tasks@[x].state.output.content) matches
                        OutputContent::Link(lvc) ==> self.vc_ok(lvc)) by {
                            assert((loop_pre.tasks@[x].state.output.content matches
                                OutputContent::Link(lvc) ==> loop_pre.vc_ok(lvc)));
                        }
                    }
                    let ghost popped = *self;
                    self.remove_dependent(vc, t);
                    proof {
                        let post = *self;
                        let pdeps = pre.tasks@[t as int].execution.dependencies@;
                        let hlen = loop_pre.tasks@[t as int].execution.dependencies@.len() as int;
                        let newlen = hlen - 1;
                        assert(only_reader_removed(
                            popped.tasks@[t as int],
                            post.tasks@[t as int],
                            t,
                        ));
                        assert(post.tasks@[t as int].execution
                            == popped.tasks@[t as int].execution);
                        assert(loop_pre.tasks@[t as int].execution.dependencies@
                            == pdeps.subrange(0, hlen));
                        assert(popped.tasks@[t as int].execution.dependencies@ =~= pdeps.subrange(
                            0,
                            newlen,
                        ));
                        assert(vc == pdeps.subrange(0, hlen)[hlen - 1]);
                        assert(vc == pdeps[newlen]);
                        assert forall|k: int| newlen <= k < pdeps.len() implies back_edge_gone(
                            post,
                            #[trigger] pdeps[k],
                            t,
                        ) by {
                            assert(pre.vc_ok(pre.tasks@[t as int].execution.dependencies@[k]));
                            let d = pdeps[k].task_id() as int;
                            assert(only_reader_removed(popped.tasks@[d], post.tasks@[d], t));
                            if k == newlen {
                                assert(back_edge_gone(post, vc, t));
                            } else {
                                assert(back_edge_gone(loop_pre, pdeps[k], t));
                                assert(popped.tasks@[d].state.output.dependent_tasks@
                                    == loop_pre.tasks@[d].state.output.dependent_tasks@);
                                assert(popped.tasks@[d].state.slots@ == loop_pre.tasks@[
                                    d].state.slots@);
                            }
                        }
                    }
                },
            }
        }
    }

    /// Invalidates task `t` by the transition table: a `Done` active task is
    /// rescheduled, a `Done` inactive one turns dirty, a running one is
    /// marked dirty-in-progress, an already-invalid one is left alone. `Once`
    /// tasks never become dirty. Clears the committed dependencies.
    pub fn make_dirty(&mut self, t: TaskId)
        requires
            old(self).wf(),
            t < old(self).n(),
        ensures
            final(self).wf(),
            crate::task::allowed_phase_step(
                old(self).phase_of(t as int),
                final(self).phase_of(t as int),
                old(self).active_of(t as int),
            ),
            old(self).tasks@[t as int].call matches CallType::Once ==> *final(self) == *old(self),
            !(old(self).tasks@[t as int].call matches CallType::Once) ==> dirtied(
                *old(self),
                *final(self),
                t as int,
            ),
    {
        let ghost pre = *old(self);
        if self.tasks[t].call.is_once() {
            return ;
        }
        self.clear_dependencies(t);
        let ghost mid = *self;
        match self.tasks[t].state.phase {
            TaskPhase::Dirty | TaskPhase::Scheduled | TaskPhase::InProgressDirty => {
            },
            TaskPhase::Done => {
                if self.tasks[t].state.active {
                    self.tasks[t].state.phase = TaskPhase::Scheduled;
                    self.scheduled.push(t);
                } else {
                    self.tasks[t].state.phase = TaskPhase::Dirty;
                }
            },
            TaskPhase::InProgress => {
                self.tasks[t].state.phase = TaskPhase::InProgressDirty;
            },
        }
        proof {
            let post = *self;
            assert forall|x: int| 0 <= x < post.n() implies (#[trigger] post.tasks@[x]).wf(
                post.n(),
            ) && post.tasks@[x].id == x by {
                assert(mid.tasks@[x].wf(mid.n()));
            }
            assert forall|x: int, k: int|
                0 <= x < post.n() && 0 <= k
                    < post.tasks@[x].execution.dependencies@.len() implies post.vc_ok(
                #[trigger] post.tasks@[x].execution.dependencies@[k],
            ) by {
                assert(mid.vc_ok(mid.tasks@[x].execution.dependencies@[k]));
            }
            assert forall|x: int|
                0 <= x < post.n() implies ((#[trigger] post.tasks@[x].state.output.content) matches
            OutputContent::Link(lvc) ==> post.vc_ok(lvc)) by {
                assert((mid.tasks@[x].state.output.content matches OutputContent::Link(lvc)
                    ==> mid.vc_ok(lvc)));
            }
            assert forall|x: int| 0 <= x < post.n() implies post.activity_ok(x) by {
                assert(mid.activity_ok(x));
            }
            assert forall|k: int| 0 <= k < post.scheduled@.len() implies (
            #[trigger] post.scheduled@[k]) < post.n() by {
                if k < mid.scheduled@.len() {
                    assert(mid.scheduled@[k] < mid.n());
                }
            }
            if post.current_task is Some {
                assert forall|k: int| 0 <= k < post.captured@.len() implies post.vc_ok(
                    #[trigger] post.captured@[k],
                ) by {
                    assert(mid.vc_ok(mid.captured@[k]));
                }
                let c = post.current_task->0;
                assert(post.tasks@[c as int].state.slots@.len()
                    == mid.tasks@[c as int].state.slots@.len());
            }
            if !(pre.tasks@[t as int].call matches CallType::Once) {
                assert(pre.scheduled@ == mid.scheduled@);
                assert forall|k: int|
                    0 <= k < pre.tasks@[t as int].execution.dependencies@.len() implies
                    back_edge_gone(
                    post,
                    #[trigger] pre.tasks@[t as int].execution.dependencies@[k],
                    t,
                ) by {
                    let vc = pre.tasks@[t as int].execution.dependencies@[k];
                    assert(back_edge_gone(mid, vc, t));
                    assert(pre.vc_ok(vc));
                    let d = vc.task_id() as int;
                    assert(post.tasks@[d].state.output.dependent_tasks@
                        == mid.tasks@[d].state.output.dependent_tasks@);
                    assert(post.tasks@[d].state.slots@ == mid.tasks@[d].state.slots@);
                }
                assert(dirtied(pre, post, t as int));
            }
        }
    }

    /// External invalidation trigger: when the task is active it will be
    /// scheduled for re-execution.
    pub fn invalidate(&mut self, t: TaskId)
        requires
            old(self).wf(),
            t < old(self).n(),
        ensures
            final(self).wf(),
            crate::task::allowed_phase_step(
                old(self).phase_of(t as int),
                final(self).phase_of(t as int),
                old(self).active_of(t as int),
            ),
            old(self).tasks@[t as int].call matches CallType::Once ==> *final(self) == *old(self),
            !(old(self).tasks@[t as int].call matches CallType::Once) ==> dirtied(
                *old(self),
                *final(self),
                t as int,
            ),
    {
        self.make_dirty(t)
    }

    /// Called when a slot a depended-on slot of the task has changed.
    pub fn dependent_slot_updated(&mut self, t: TaskId)
        requires
            old(self).wf(),
            t < old(self).n(),
        ensures
            final(self).wf(),
            old(self).tasks@[t as int].call matches CallType::Once ==> *final(self) == *old(self),
            !(old(self).tasks@[t as int].call matches CallType::Once) ==> dirtied(
                *old(self),
                *final(self),
                t as int,
            ),
    {
        self.make_dirty(t)
    }
}


/// Frame of an activation walk on one task: identity, structure and results
/// unchanged; the activity flag only rises, the parent count never falls, and
/// the phase moves at most from `Dirty` to `Scheduled` (while active).
pub open spec fn act_frame(pre: Task, post: Task) -> bool {
    &&& post.id == pre.id
    &&& post.call == pre.call
    &&& post.inputs == pre.inputs
    &&& post.state.children == pre.state.children
    &&& post.state.output == pre.state.output
    &&& post.state.slots == pre.state.slots
    &&& post.state.event == pre.state.event
    &&& post.state.executions == pre.state.executions
    &&& post.execution == pre.execution
    &&& (pre.state.active ==> post.state.active)
    &&& post.active_parents >= pre.active_parents
    &&& (post.state.phase == pre.state.phase || (pre.state.phase == TaskPhase::Dirty
        && post.state.phase == TaskPhase::Scheduled && post.state.active && !pre.state.active))
}

/// Frame of a deactivation walk on one task: identity, structure, results and
/// phase unchanged; the activity flag only falls and the parent count never
/// rises.
pub open spec fn deact_frame(pre: Task, post: Task) -> bool {
    &&& post.id == pre.id
    &&& post.call == pre.call
    &&& post.inputs == pre.inputs
    &&& post.state.children == pre.state.children
    &&& post.state.output == pre.state.output
    &&& post.state.slots == pre.state.slots
    &&& post.state.event == pre.state.event
    &&& post.state.executions == pre.state.executions
    &&& post.execution == pre.execution
    &&& (post.state.active ==> pre.state.active)
    &&& post.active_parents <= pre.active_parents
    &&& post.state.phase == pre.state.phase
}

/// Activation frames compose.
proof fn lemma_act_frame_trans(a: Task, b: Task, c: Task)
    requires
        act_frame(a, b),
        act_frame(b, c),
    ensures
        act_frame(a, c),
{
}

/// Deactivation frames compose.
proof fn lemma_deact_frame_trans(a: Task, b: Task, c: Task)
    requires
        deact_frame(a, b),
        deact_frame(b, c),
    ensures
        deact_frame(a, c),
{
}

/// A sequence is a prefix of itself extended by a push.
proof fn lemma_push_prefix(a: Seq<TaskId>, x: TaskId)
    ensures
        a.is_prefix_of(a.push(x)),
{
    assert(a =~= a.push(x).subrange(0, a.len() as int));
}

/// Every sequence is a prefix of itself.
proof fn lemma_prefix_refl(a: Seq<TaskId>)
    ensures
        a.is_prefix_of(a),
{
    assert(a =~= a.subrange(0, a.len() as int));
}

/// Prefixes compose.
proof fn lemma_prefix_trans(a: Seq<TaskId>, b: Seq<TaskId>, c: Seq<TaskId>)
    requires
        a.is_prefix_of(b),
        b.is_prefix_of(c),
    ensures
        a.is_prefix_of(c),
{
    assert(a =~= c.subrange(0, a.len() as int));
}

/// What a prefix contains, the whole contains.
proof fn lemma_prefix_contains(a: Seq<TaskId>, b: Seq<TaskId>, x: TaskId)
    requires
        a.is_prefix_of(b),
        a.contains(x),
    ensures
        b.contains(x),
{
    let j = choose|j: int| 0 <= j < a.len() && a[j] == x;
    assert(b[j] == x);
}

/// An element other than the last survives dropping the last element.
proof fn lemma_drop_last_contains(s: Seq<TaskId>, x: TaskId)
    requires
        s.len() > 0,
        s.contains(x),
        x != s.last(),
    ensures
        s.drop_last().contains(x),
{
    let j = choose|j: int| 0 <= j < s.len() && s[j] == x;
    assert(j < s.len() - 1);
    assert(s.drop_last()[j] == x);
}

impl Engine {
    /// Structural well-formedness without the activity invariant; used while
    /// a walk has one task transiently uncovered.
    pub open spec fn wf_base(self) -> bool {
        &&& self.tasks_wf()
        &&& self.targets_wf()
        &&& self.queues_wf()
        &&& self.ctx_wf()
    }

    /// Activates task `t` after its parent count became positive: marks it
    /// active, raises each child's parent count, recurses while within the
    /// direct-walk depth and defers deeper children as a batch, and finally
    /// schedules the task if it was dirty.
    fn activate_at(&mut self, t: TaskId, depth: usize)
        requires
            old(self).wf_base(),
            old(self).activity_inv_except_activation(t as int),
            t < old(self).n(),
            depth <= DIRECT_WALK_DEPTH,
        ensures
            final(self).wf(),
            final(self).n() == old(self).n(),
            forall|x: int|
                0 <= x < old(self).n() ==> act_frame(
                    old(self).tasks@[x],
                    #[trigger] final(self).tasks@[x],
                ),
            old(self).parents_of(t as int) > 0 ==> final(self).active_of(t as int),
            old(self).parents_of(t as int) == 0 ==> *final(self) == *old(self),
            old(self).active_of(t as int) ==> *final(self) == *old(self),
            (old(self).parents_of(t as int) > 0 && !old(self).active_of(t as int)) ==> {
                &&& final(self).phase_of(t as int) == crate::task::activated_phase(
                    old(self).phase_of(t as int),
                )
                &&& crate::task::allowed_phase_step(
                    old(self).phase_of(t as int),
                    final(self).phase_of(t as int),
                    true,
                )
                &&& (old(self).phase_of(t as int) == TaskPhase::Dirty
                    ==> final(self).scheduled@.contains(t))
                &&& forall|k: int|
                    0 <= k < old(self).tasks@[t as int].state.children@.len() && (
                    #[trigger] old(self).tasks@[t as int].state.children@[k]) != t ==> {
                        let c = old(self).tasks@[t as int].state.children@[k] as int;
                        &&& final(self).parents_of(c) > 0
                        &&& (old(self).parents_of(c) < u32::MAX ==> final(self).parents_of(c)
                            >= old(self).parents_of(c) + 1)
                    }
            },
            old(self).scheduled@.is_prefix_of(final(self).scheduled@),
            old(self).deferred_activations@.is_prefix_of(final(self).deferred_activations@),
            final(self).deferred_deactivations == old(self).deferred_deactivations,
            final(self).deferred_removals == old(self).deferred_removals,
            final(self).current_task == old(self).current_task,
            final(self).captured == old(self).captured,
            final(self).current_prev == old(self).current_prev,
        decreases DIRECT_WALK_DEPTH - depth,
    {
        let ghost pre0 = *old(self);
        if self.tasks[t].active_parents == 0 {
            proof {
                assert forall|x: int| 0 <= x < self.n() implies self.activity_ok(x) by {
                    assert(pre0.deact_cover_ok(x));
                    if x != t as int {
                        assert(pre0.act_cover_ok(x));
                    }
                }
                lemma_prefix_refl(pre0.scheduled@);
                lemma_prefix_refl(pre0.deferred_activations@);
            }
            return ;
        }
        if self.tasks[t].state.active {
            proof {
                assert forall|x: int| 0 <= x < self.n() implies self.activity_ok(x) by {
                    assert(pre0.deact_cover_ok(x));
                    if x != t as int {
                        assert(pre0.act_cover_ok(x));
                    }
                }
                lemma_prefix_refl(pre0.scheduled@);
                lemma_prefix_refl(pre0.deferred_activations@);
            }
            return ;
        }
        self.tasks[t].state.active = true;
        proof {
            assert forall|x: int| 0 <= x < self.n() implies (#[trigger] self.tasks@[x]).wf(
                self.n(),
            ) && self.tasks@[x].id == x by {
                assert(pre0.tasks@[x].wf(pre0.n()));
            }
            assert forall|x: int| 0 <= x < self.n() implies self.activity_ok(x) by {
                assert(pre0.deact_cover_ok(x));
                if x != t as int {
                    assert(pre0.act_cover_ok(x));
                    assert(self.tasks@[x] == pre0.tasks@[x]);
                }
            }
        }
        let children = clone_ids(&self.tasks[t].state.children);
        let ghost mid = *self;
        proof {
            lemma_prefix_refl(mid.scheduled@);
            lemma_prefix_refl(mid.deferred_activations@);
        }
        let n_children = children.len();
        let mut i: usize = 0;
        while i < n_children
            invariant
                self.wf_base(),
                self.activity_inv(),
                self.n() == pre0.n(),
                t < self.n(),
                depth <= DIRECT_WALK_DEPTH,
                n_children == children@.len(),
                i <= n_children,
                mid.tasks@.len() == pre0.n(),
                forall|x: int| 0 <= x < pre0.n() && x != t ==> mid.tasks@[x] == pre0.tasks@[x],
                mid.parents_of(t as int) == pre0.parents_of(t as int),
                mid.phase_of(t as int) == pre0.phase_of(t as int),
                mid.active_of(t as int),
                forall|k: int| 0 <= k < children@.len() ==> (#[trigger] children@[k]) < self.n(),
                forall|x: int|
                    0 <= x < pre0.n() ==> act_frame(mid.tasks@[x], #[trigger] self.tasks@[x]),
                self.active_of(t as int),
                forall|k: int|
                    0 <= k < i && (#[trigger] children@[k]) != t ==> {
                        let c = children@[k] as int;
                        &&& self.parents_of(c) > 0
                        &&& (pre0.parents_of(c) < u32::MAX ==> self.parents_of(c)
                            >= pre0.parents_of(c) + 1)
                    },
                mid.scheduled@.is_prefix_of(self.scheduled@),
                mid.deferred_activations@.is_prefix_of(self.deferred_activations@),
                self.deferred_deactivations == mid.deferred_deactivations,
                self.deferred_removals == mid.deferred_removals,
                self.current_task == mid.current_task,
                self.captured == mid.captured,
                self.current_prev == mid.current_prev,
            decreases n_children - i,
        {
            let ghost iter_pre = *self;
            let c = children[i];
            let p = self.tasks[c].active_parents;
            if p < u32::MAX {
                self.tasks[c].active_parents = p + 1;
            }
            let ghost inc_post = *self;
            proof {
                assert forall|x: int| 0 <= x < self.n() implies (#[trigger] self.tasks@[x]).wf(
                    self.n(),
                ) && self.tasks@[x].id == x by {
                    assert(iter_pre.tasks@[x].wf(iter_pre.n()));
                }
                assert forall|x: int|
                    0 <= x < self.n() implies self.deact_cover_ok(x) && (x != c as int
                    ==> self.act_cover_ok(x)) by {
                    assert(iter_pre.activity_ok(x));
                    if x != c as int {
                        assert(self.tasks@[x] == iter_pre.tasks@[x]);
                    }
                }
                assert(self.activity_inv_except_activation(c as int));
                assert forall|x: int|
                    0 <= x < pre0.n() implies act_frame(
                    mid.tasks@[x],
                    #[trigger] inc_post.tasks@[x],
                ) by {
                    lemma_act_frame_trans(mid.tasks@[x], iter_pre.tasks@[x], inc_post.tasks@[x]);
                }
            }
            if p == 0 {
                if depth < DIRECT_WALK_DEPTH {
                    self.activate_at(c, depth + 1);
                    proof {
                        assert forall|x: int|
                            0 <= x < pre0.n() implies act_frame(
                            mid.tasks@[x],
                            #[trigger] self.tasks@[x],
                        ) by {
                            lemma_act_frame_trans(
                                mid.tasks@[x],
                                inc_post.tasks@[x],
                                self.tasks@[x],
                            );
                        }
                        lemma_prefix_trans(
                            mid.scheduled@,
                            inc_post.scheduled@,
                            self.scheduled@,
                        );
                        lemma_prefix_trans(
                            mid.deferred_activations@,
                            inc_post.deferred_activations@,
                            self.deferred_activations@,
                        );
                    }
                } else {
                    self.deferred_activations.push(c);
                    proof {
                        assert(self.deferred_activations@.last() == c);
                        assert(self.deferred_activations@.contains(c));
                        assert forall|x: int| 0 <= x < self.n() implies self.activity_ok(x) by {
                            if x == c as int {
                                assert(self.deferred_activations@.contains(c));
                            } else {
                                assert(inc_post.deact_cover_ok(x));
                                assert(inc_post.act_cover_ok(x));
                                assert(self.tasks@[x] == inc_post.tasks@[x]);
                                if !self.active_of(x) && self.parents_of(x) > 0 {
                                    assert(inc_post.deferred_activations@.contains(x as usize));
                                    lemma_push_prefix(inc_post.deferred_activations@, c);
                                    lemma_prefix_contains(
                                        inc_post.deferred_activations@,
                                        self.deferred_activations@,
                                        x as usize,
                                    );
                                }
                            }
                        }
                        lemma_push_prefix(inc_post.deferred_activations@, c);
                        lemma_prefix_trans(
                            mid.deferred_activations@,
                            inc_post.deferred_activations@,
                            self.deferred_activations@,
                        );
                    }
                }
            } else {
                proof {
                    assert forall|x: int| 0 <= x < self.n() implies self.activity_ok(x) by {
                        assert(inc_post.deact_cover_ok(x));
                        assert(inc_post.act_cover_ok(x) || x == c as int);
                        if x == c as int {
                            assert(iter_pre.activity_ok(x));
                            assert(iter_pre.parents_of(x) == p);
                            assert(p > 0);
                        }
                    }
                }
            }
            proof {
                assert forall|k: int|
                    0 <= k < i + 1 && (#[trigger] children@[k]) != t implies {
                    let c2 = children@[k] as int;
                    &&& self.parents_of(c2) > 0
                    &&& (pre0.parents_of(c2) < u32::MAX ==> self.parents_of(c2)
                        >= pre0.parents_of(c2) + 1)
                } by {
                    let c2 = children@[k] as int;
                    assert(act_frame(inc_post.tasks@[c2], self.tasks@[c2]));
                    assert(act_frame(iter_pre.tasks@[c2], inc_post.tasks@[c2]));
                    assert(mid.parents_of(c2) == pre0.parents_of(c2));
                    if k == i {
                        assert(iter_pre.parents_of(c2) == p);
                        assert(act_frame(mid.tasks@[c2], iter_pre.tasks@[c2]));
                    }
                }
            }
            i += 1;
        }
        proof {
            assert(act_frame(mid.tasks@[t as int], self.tasks@[t as int]));
            assert(self.phase_of(t as int) == pre0.phase_of(t as int));
        }
        if self.tasks[t].state.phase == TaskPhase::Dirty {
            let ghost sched_pre = *self;
            self.tasks[t].state.phase = TaskPhase::Scheduled;
            self.scheduled.push(t);
            proof {
                assert forall|x: int| 0 <= x < self.n() implies (#[trigger] self.tasks@[x]).wf(
                    self.n(),
                ) && self.tasks@[x].id == x by {
                    assert(sched_pre.tasks@[x].wf(sched_pre.n()));
                }
                assert forall|x: int| 0 <= x < self.n() implies self.activity_ok(x) by {
                    assert(sched_pre.activity_ok(x));
                    if x != t as int {
                        assert(self.tasks@[x] == sched_pre.tasks@[x]);
                    }
                }
                assert forall|k: int| 0 <= k < self.scheduled@.len() implies (
                #[trigger] self.scheduled@[k]) < self.n() by {
                    if k < sched_pre.scheduled@.len() {
                        assert(sched_pre.scheduled@[k] < sched_pre.n());
                    }
                }
                assert forall|x: int|
                    0 <= x < pre0.n() implies act_frame(
                    pre0.tasks@[x],
                    #[trigger] self.tasks@[x],
                ) by {
                    lemma_act_frame_trans(pre0.tasks@[x], mid.tasks@[x], sched_pre.tasks@[x]);
                    if x != t as int {
                        lemma_act_frame_trans(pre0.tasks@[x], sched_pre.tasks@[x], self.tasks@[x]);
                    } else {
                        assert(act_frame(pre0.tasks@[x], sched_pre.tasks@[x]));
                        assert(!pre0.tasks@[x].state.active);
                        assert(pre0.tasks@[x].state.phase == TaskPhase::Dirty);
                        assert(self.tasks@[x].state.phase == TaskPhase::Scheduled);
                        assert(self.tasks@[x].state.active);
                    }
                }
                assert forall|k: int|
                    0 <= k < pre0.tasks@[t as int].state.children@.len() && (
                    #[trigger] pre0.tasks@[t as int].state.children@[k]) != t implies {
                    let c2 = pre0.tasks@[t as int].state.children@[k] as int;
                    &&& self.parents_of(c2) > 0
                    &&& (pre0.parents_of(c2) < u32::MAX ==> self.parents_of(c2)
                        >= pre0.parents_of(c2) + 1)
                } by {
                    let c2 = pre0.tasks@[t as int].state.children@[k] as int;
                    assert(c2 != t as int);
                }
                lemma_push_prefix(sched_pre.scheduled@, t);
                lemma_prefix_trans(pre0.scheduled@, sched_pre.scheduled@, self.scheduled@);
                assert(self.scheduled@.last() == t);
                assert(self.scheduled@.contains(t));
            }
        } else {
            proof {
                assert forall|x: int|
                    0 <= x < pre0.n() implies act_frame(
                    pre0.tasks@[x],
                    #[trigger] self.tasks@[x],
                ) by {
                    lemma_act_frame_trans(pre0.tasks@[x], mid.tasks@[x], self.tasks@[x]);
                }
                assert forall|k: int|
                    0 <= k < pre0.tasks@[t as int].state.children@.len() && (
                    #[trigger] pre0.tasks@[t as int].state.children@[k]) != t implies {
                    let c2 = pre0.tasks@[t as int].state.children@[k] as int;
                    &&& self.parents_of(c2) > 0
                    &&& (pre0.parents_of(c2) < u32::MAX ==> self.parents_of(c2)
                        >= pre0.parents_of(c2) + 1)
                } by {
                    let c2 = pre0.tasks@[t as int].state.children@[k] as int;
                    assert(c2 != t as int);
                }
            }
        }
    }

    /// Deactivates task `t` after its parent count returned to zero: clears
    /// the activity flag, lowers each child's parent count, recurses while
    /// within the direct-walk depth and defers deeper children as a batch.
    fn deactivate_at(&mut self, t: TaskId, depth: usize)
        requires
            old(self).wf_base(),
            old(self).activity_inv_except_deactivation(t as int),
            t < old(self).n(),
            depth <= DIRECT_WALK_DEPTH,
        ensures
            final(self).wf(),
            final(self).n() == old(self).n(),
            forall|x: int|
                0 <= x < old(self).n() ==> deact_frame(
                    old(self).tasks@[x],
                    #[trigger] final(self).tasks@[x],
                ),
            old(self).parents_of(t as int) != 0 ==> *final(self) == *old(self),
            !old(self).active_of(t as int) ==> *final(self) == *old(self),
            (old(self).parents_of(t as int) == 0 && old(self).active_of(t as int)) ==> {
                &&& !final(self).active_of(t as int)
                &&& forall|k: int|
                    0 <= k < old(self).tasks@[t as int].state.children@.len() && (
                    #[trigger] old(self).tasks@[t as int].state.children@[k]) != t ==> {
                        let c = old(self).tasks@[t as int].state.children@[k] as int;
                        old(self).parents_of(c) > 0 ==> final(self).parents_of(c) <= old(self).parents_of(c) - 1
                    }
            },
            old(self).deferred_deactivations@.is_prefix_of(final(self).deferred_deactivations@),
            final(self).scheduled == old(self).scheduled,
            final(self).deferred_activations == old(self).deferred_activations,
            final(self).deferred_removals == old(self).deferred_removals,
            final(self).current_task == old(self).current_task,
            final(self).captured == old(self).captured,
            final(self).current_prev == old(self).current_prev,
        decreases DIRECT_WALK_DEPTH - depth,
    {
        let ghost pre0 = *old(self);
        if self.tasks[t].active_parents != 0 {
            proof {
                assert forall|x: int| 0 <= x < self.n() implies self.activity_ok(x) by {
                    assert(pre0.act_cover_ok(x));
                    if x != t as int {
                        assert(pre0.deact_cover_ok(x));
                    }
                }
                lemma_prefix_refl(pre0.deferred_deactivations@);
            }
            return ;
        }
        if !self.tasks[t].state.active {
            proof {
                assert forall|x: int| 0 <= x < self.n() implies self.activity_ok(x) by {
                    assert(pre0.act_cover_ok(x));
                    if x != t as int {
                        assert(pre0.deact_cover_ok(x));
                    }
                }
                lemma_prefix_refl(pre0.deferred_deactivations@);
            }
            return ;
        }
        self.tasks[t].state.active = false;
        proof {
            assert forall|x: int| 0 <= x < self.n() implies (#[trigger] self.tasks@[x]).wf(
                self.n(),
            ) && self.tasks@[x].id == x by {
                assert(pre0.tasks@[x].wf(pre0.n()));
            }
            assert forall|x: int| 0 <= x < self.n() implies self.activity_ok(x) by {
                assert(pre0.act_cover_ok(x));
                if x != t as int {
                    assert(pre0.deact_cover_ok(x));
                    assert(self.tasks@[x] == pre0.tasks@[x]);
                }
            }
        }
        let children = clone_ids(&self.tasks[t].state.children);
        let ghost mid = *self;
        proof {
            lemma_prefix_refl(mid.deferred_deactivations@);
        }
        let n_children = children.len();
        let mut i: usize = 0;
        while i < n_children
            invariant
                self.wf_base(),
                self.activity_inv(),
                self.n() == pre0.n(),
                t < self.n(),
                depth <= DIRECT_WALK_DEPTH,
                n_children == children@.len(),
                i <= n_children,
                mid.tasks@.len() == pre0.n(),
                children@ == pre0.tasks@[t as int].state.children@,
                forall|x: int| 0 <= x < pre0.n() && x != t ==> mid.tasks@[x] == pre0.tasks@[x],
                mid.parents_of(t as int) == pre0.parents_of(t as int),
                !mid.active_of(t as int),
                forall|k: int| 0 <= k < children@.len() ==> (#[trigger] children@[k]) < self.n(),
                forall|x: int|
                    0 <= x < pre0.n() ==> deact_frame(mid.tasks@[x], #[trigger] self.tasks@[x]),
                !self.active_of(t as int),
                forall|k: int|
                    0 <= k < i && (#[trigger] children@[k]) != t ==> {
                        let c = children@[k] as int;
                        pre0.parents_of(c) > 0 ==> self.parents_of(c) <= pre0.parents_of(c) - 1
                    },
                mid.deferred_deactivations@.is_prefix_of(self.deferred_deactivations@),
                self.scheduled == mid.scheduled,
                self.deferred_activations == mid.deferred_activations,
                self.deferred_removals == mid.deferred_removals,
                self.current_task == mid.current_task,
                self.captured == mid.captured,
                self.current_prev == mid.current_prev,
            decreases n_children - i,
        {
            let ghost iter_pre = *self;
            let c = children[i];
            let p = self.tasks[c].active_parents;
            if p > 0 {
                self.tasks[c].active_parents = p - 1;
                let ghost dec_post = *self;
                proof {
                    assert forall|x: int| 0 <= x < self.n() implies (#[trigger] self.tasks@[x]).wf(
                        self.n(),
                    ) && self.tasks@[x].id == x by {
                        assert(iter_pre.tasks@[x].wf(iter_pre.n()));
                    }
                    assert forall|x: int|
                        0 <= x < self.n() implies self.act_cover_ok(x) && (x != c as int
                        ==> self.deact_cover_ok(x)) by {
                        assert(iter_pre.activity_ok(x));
                        if x != c as int {
                            assert(self.tasks@[x] == iter_pre.tasks@[x]);
                        } else {
                            if !self.active_of(x) && self.parents_of(x) > 0 {
                                assert(iter_pre.parents_of(x) == p > 0);
                            }
                        }
                    }
                    assert(self.activity_inv_except_deactivation(c as int));
                    assert forall|x: int|
                        0 <= x < pre0.n() implies deact_frame(
                        mid.tasks@[x],
                        #[trigger] dec_post.tasks@[x],
                    ) by {
                        lemma_deact_frame_trans(
                            mid.tasks@[x],
                            iter_pre.tasks@[x],
                            dec_post.tasks@[x],
                        );
                    }
                }
                if p == 1 {
                    if depth < DIRECT_WALK_DEPTH {
                        self.deactivate_at(c, depth + 1);
                        proof {
                            assert forall|x: int|
                                0 <= x < pre0.n() implies deact_frame(
                                mid.tasks@[x],
                                #[trigger] self.tasks@[x],
                            ) by {
                                lemma_deact_frame_trans(
                                    mid.tasks@[x],
                                    dec_post.tasks@[x],
                                    self.tasks@[x],
                                );
                            }
                            lemma_prefix_trans(
                                mid.deferred_deactivations@,
                                dec_post.deferred_deactivations@,
                                self.deferred_deactivations@,
                            );
                        }
                    } else {
                        self.deferred_deactivations.push(c);
                        proof {
                            assert(self.deferred_deactivations@.last() == c);
                            assert(self.deferred_deactivations@.contains(c));
                            assert forall|x: int|
                                0 <= x < self.n() implies self.activity_ok(x) by {
                                if x == c as int {
                                    assert(self.deferred_deactivations@.contains(c));
                                } else {
                                    assert(dec_post.deact_cover_ok(x));
                                    assert(dec_post.act_cover_ok(x));
                                    assert(self.tasks@[x] == dec_post.tasks@[x]);
                                    if self.active_of(x) && self.parents_of(x) == 0 {
                                        assert(dec_post.deferred_deactivations@.contains(
                                            x as usize,
                                        ));
                                        lemma_push_prefix(dec_post.deferred_deactivations@, c);
                                        lemma_prefix_contains(
                                            dec_post.deferred_deactivations@,
                                            self.deferred_deactivations@,
                                            x as usize,
                                        );
                                    }
                                }
                            }
                            lemma_push_prefix(dec_post.deferred_deactivations@, c);
                            lemma_prefix_trans(
                                mid.deferred_deactivations@,
                                dec_post.deferred_deactivations@,
                                self.deferred_deactivations@,
                            );
                        }
                    }
                } else {
                    proof {
                        assert forall|x: int| 0 <= x < self.n() implies self.activity_ok(x) by {
                            assert(dec_post.act_cover_ok(x));
                            if x != c as int {
                                assert(dec_post.deact_cover_ok(x));
                            } else {
                                assert(iter_pre.activity_ok(x));
                                assert(self.parents_of(x) == p - 1);
                                assert(p - 1 > 0);
                            }
                        }
                    }
                }
            } else {
                proof {
                    assert forall|x: int| 0 <= x < self.n() implies self.activity_ok(x) by {
                        assert(iter_pre.activity_ok(x));
                    }
                }
            }
            proof {
                assert forall|k: int|
                    0 <= k < i + 1 && (#[trigger] children@[k]) != t implies {
                    let c2 = children@[k] as int;
                    pre0.parents_of(c2) > 0 ==> self.parents_of(c2) <= pre0.parents_of(c2) - 1
                } by {
                    let c2 = children@[k] as int;
                    assert(deact_frame(mid.tasks@[c2], self.tasks@[c2]));
                    assert(deact_frame(mid.tasks@[c2], iter_pre.tasks@[c2]));
                    assert(mid.parents_of(c2) == pre0.parents_of(c2));
                    if k == i {
                        assert(iter_pre.parents_of(c2) == p);
                    }
                }
            }
            i += 1;
        }
        proof {
            assert forall|x: int|
                0 <= x < pre0.n() implies deact_frame(
                pre0.tasks@[x],
                #[trigger] self.tasks@[x],
            ) by {
                lemma_deact_frame_trans(pre0.tasks@[x], mid.tasks@[x], self.tasks@[x]);
            }
            assert forall|k: int|
                0 <= k < pre0.tasks@[t as int].state.children@.len() && (
                #[trigger] pre0.tasks@[t as int].state.children@[k]) != t implies {
                let c2 = pre0.tasks@[t as int].state.children@[k] as int;
                pre0.parents_of(c2) > 0 ==> self.parents_of(c2) <= pre0.parents_of(c2) - 1
            } by {
                let c2 = pre0.tasks@[t as int].state.children@[k] as int;
                assert(c2 != t as int);
            }
        }
    }

    /// Records an ownership edge from `parent` to `child`, created while the
    /// parent's execution invokes the child. If the edge is new and the
    /// parent is active, the child gains a parent reference and is activated
    /// when that reference is its first.
    pub fn connect_child(&mut self, parent: TaskId, child: TaskId)
        requires
            old(self).wf(),
            parent < old(self).n(),
            child < old(self).n(),
        ensures
            final(self).wf(),
            final(self).n() == old(self).n(),
            final(self).tasks@[parent as int].state.children@.contains(child),
            forall|y: TaskId|
                #[trigger] final(self).tasks@[parent as int].state.children@.contains(y)
                    <==> (old(self).tasks@[parent as int].state.children@.contains(y) || y
                == child),
            (old(self).active_of(parent as int) && !old(self).tasks@[parent as
                int].state.children@.contains(child)) ==> {
                &&& final(self).parents_of(child as int) > 0
                &&& (final(self).active_of(child as int)
                    || final(self).deferred_activations@.contains(child))
                &&& (old(self).parents_of(child as int) == 0 ==> final(self).active_of(child as int))
                &&& (old(self).parents_of(child as int) == 0 && !old(self).active_of(child as int) ==> final(self).phase_of(child as int) == crate::task::activated_phase(
                    old(self).phase_of(child as int),
                ) && (old(self).phase_of(child as int) == TaskPhase::Dirty
                    ==> final(self).scheduled@.contains(child)))
                &&& (old(self).parents_of(child as int) > 0 && child != parent ==> {
                    &&& final(self).parents_of(child as int) == (if old(self).parents_of(child as int) == u32::MAX {
                        u32::MAX
                    } else {
                        (old(self).parents_of(child as int) + 1) as u32
                    })
                    &&& forall|x: int|
                        0 <= x < old(self).n() && x != parent && x != child ==> final(self).tasks@[x] == old(self).tasks@[x]
                })
            },
            (!old(self).active_of(parent as int) || old(self).tasks@[parent as
                int].state.children@.contains(child)) ==> {
                &&& forall|x: int|
                    0 <= x < old(self).n() && x != parent ==> final(self).tasks@[x] == old(self).tasks@[x]
                &&& final(self).scheduled == old(self).scheduled
                &&& final(self).deferred_activations == old(self).deferred_activations
            },
            forall|x: int|
                0 <= x < old(self).n() && x != parent ==> act_frame(
                    old(self).tasks@[x],
                    #[trigger] final(self).tasks@[x],
                ),
    {
        let ghost pre0 = *old(self);
        let added = id_set_insert(&mut self.tasks[parent].state.children, child);
        let ghost ins_post = *self;
        proof {
            assert forall|x: int| 0 <= x < self.n() implies (#[trigger] self.tasks@[x]).wf(
                self.n(),
            ) && self.tasks@[x].id == x by {
                assert(pre0.tasks@[x].wf(pre0.n()));
            }
            assert forall|x: int| 0 <= x < self.n() implies self.activity_ok(x) by {
                assert(pre0.activity_ok(x));
            }
        }
        if added && self.tasks[parent].state.active {
            let p = self.tasks[child].active_parents;
            if p < u32::MAX {
                self.tasks[child].active_parents = p + 1;
            }
            let ghost inc_post = *self;
            proof {
                assert forall|x: int| 0 <= x < self.n() implies (#[trigger] self.tasks@[x]).wf(
                    self.n(),
                ) && self.tasks@[x].id == x by {
                    assert(ins_post.tasks@[x].wf(ins_post.n()));
                }
                assert forall|x: int|
                    0 <= x < self.n() implies self.deact_cover_ok(x) && (x != child as int
                    ==> self.act_cover_ok(x)) by {
                    assert(ins_post.activity_ok(x));
                    if x != child as int {
                        assert(self.tasks@[x] == ins_post.tasks@[x]);
                    }
                }
                assert(self.activity_inv_except_activation(child as int));
            }
            if p == 0 {
                self.activate_at(child, 0);
                proof {
                    assert(act_frame(inc_post.tasks@[parent as int], self.tasks@[parent as int]));
                    assert(self.tasks@[parent as int].state.children == ins_post.tasks@[parent as
                        int].state.children);
                    assert(inc_post.parents_of(child as int) > 0);
                    assert(self.active_of(child as int));
                    if !pre0.active_of(child as int) {
                        assert(inc_post.phase_of(child as int) == pre0.phase_of(child as int));
                        assert(self.phase_of(child as int) == crate::task::activated_phase(
                            pre0.phase_of(child as int),
                        ));
                    }
                    assert forall|x: int|
                        0 <= x < pre0.n() && x != parent as int implies act_frame(
                        pre0.tasks@[x],
                        #[trigger] self.tasks@[x],
                    ) by {
                        lemma_act_frame_trans(pre0.tasks@[x], inc_post.tasks@[x], self.tasks@[x]);
                    }
                }
            } else {
                proof {
                    assert forall|x: int| 0 <= x < self.n() implies self.activity_ok(x) by {
                        assert(inc_post.deact_cover_ok(x));
                        assert(inc_post.act_cover_ok(x) || x == child as int);
                        if x == child as int {
                            assert(ins_post.activity_ok(x));
                            assert(ins_post.parents_of(x) == p);
                            assert(p > 0);
                        }
                    }
                    assert(self.activity_ok(child as int));
                    assert(self.parents_of(child as int) > 0);
                    assert(self.active_of(child as int)
                        || self.deferred_activations@.contains(child));
                }
            }
        }
    }

    /// Releases one external parent reference on `t`, deactivating the
    /// subtree when it was the last.
    pub fn remove(&mut self, t: TaskId)
        requires
            old(self).wf(),
            t < old(self).n(),
        ensures
            final(self).wf(),
            final(self).n() == old(self).n(),
            old(self).parents_of(t as int) == 0 ==> *final(self) == *old(self),
            old(self).parents_of(t as int) > 1 ==> {
                &&& final(self).parents_of(t as int) == old(self).parents_of(t as int) - 1
                &&& forall|x: int|
                    0 <= x < old(self).n() && x != t ==> final(self).tasks@[x] == old(self).tasks@[x]
                &&& final(self).active_of(t as int) == old(self).active_of(t as int)
                &&& final(self).phase_of(t as int) == old(self).phase_of(t as int)
            },
            old(self).parents_of(t as int) == 1 ==> {
                &&& final(self).parents_of(t as int) == 0
                &&& !final(self).active_of(t as int)
            },
            forall|x: int|
                0 <= x < old(self).n() ==> deact_frame(
                    old(self).tasks@[x],
                    #[trigger] final(self).tasks@[x],
                ),
    {
        let ghost pre0 = *old(self);
        let p = self.tasks[t].active_parents;
        if p > 0 {
            self.tasks[t].active_parents = p - 1;
            let ghost dec_post = *self;
            proof {
                assert forall|x: int| 0 <= x < self.n() implies (#[trigger] self.tasks@[x]).wf(
                    self.n(),
                ) && self.tasks@[x].id == x by {
                    assert(pre0.tasks@[x].wf(pre0.n()));
                }
                assert forall|x: int|
                    0 <= x < self.n() implies self.act_cover_ok(x) && (x != t as int
                    ==> self.deact_cover_ok(x)) by {
                    assert(pre0.activity_ok(x));
                    if x != t as int {
                        assert(self.tasks@[x] == pre0.tasks@[x]);
                    } else {
                        if !self.active_of(x) && self.parents_of(x) > 0 {
                            assert(pre0.parents_of(x) == p);
                            assert(p > 0);
                        }
                    }
                }
                assert(self.activity_inv_except_deactivation(t as int));
            }
            if p == 1 {
                self.deactivate_at(t, 0);
                proof {
                    assert forall|x: int|
                        0 <= x < pre0.n() implies deact_frame(
                        pre0.tasks@[x],
                        #[trigger] self.tasks@[x],
                    ) by {
                        lemma_deact_frame_trans(pre0.tasks@[x], dec_post.tasks@[x], self.tasks@[x]);
                    }
                    assert(dec_post.parents_of(t as int) == 0);
                    assert(!self.active_of(t as int)) by {
                        if dec_post.active_of(t as int) {
                        } else {
                            assert(deact_frame(dec_post.tasks@[t as int], self.tasks@[t as int]));
                        }
                    }
                    assert(self.parents_of(t as int) == 0);
                }
            } else {
                proof {
                    assert forall|x: int| 0 <= x < self.n() implies self.activity_ok(x) by {
                        assert(dec_post.act_cover_ok(x));
                        assert(dec_post.deact_cover_ok(x) || x == t as int);
                        if x == t as int {
                            assert(self.parents_of(x) == p - 1);
                            assert(p - 1 > 0);
                        }
                    }
                }
            }
        }
    }

    /// Processes a batch of deferred deactivation jobs, each re-entering the
    /// walk at depth zero.
    pub fn deactivate_tasks(&mut self, batch: Vec<TaskId>)
        requires
            old(self).wf(),
            forall|k: int| 0 <= k < batch@.len() ==> (#[trigger] batch@[k]) < old(self).n(),
        ensures
            final(self).wf(),
            final(self).n() == old(self).n(),
            forall|k: int|
                0 <= k < batch@.len() && old(self).parents_of(#[trigger] batch@[k] as int) == 0
                    ==> !final(self).active_of(batch@[k] as int),
            forall|x: int|
                0 <= x < old(self).n() ==> deact_frame(
                    old(self).tasks@[x],
                    #[trigger] final(self).tasks@[x],
                ),
    {
        let ghost pre0 = *old(self);
        let m = batch.len();
        let mut i: usize = 0;
        while i < m
            invariant
                self.wf(),
                self.n() == pre0.n(),
                m == batch@.len(),
                i <= m,
                forall|k: int| 0 <= k < batch@.len() ==> (#[trigger] batch@[k]) < self.n(),
                forall|x: int|
                    0 <= x < pre0.n() ==> deact_frame(pre0.tasks@[x], #[trigger] self.tasks@[x]),
                forall|k: int|
                    0 <= k < i && pre0.parents_of(#[trigger] batch@[k] as int) == 0
                        ==> !self.active_of(batch@[k] as int),
            decreases m - i,
        {
            let ghost iter_pre0 = *self;
            let c = batch[i];
            proof {
                assert forall|x: int|
                    0 <= x < self.n() implies self.act_cover_ok(x) && (x != c as int
                    ==> self.deact_cover_ok(x)) by {
                    assert(self.activity_ok(x));
                }
                assert(self.activity_inv_except_deactivation(c as int));
            }
            self.deactivate_at(c, 0);
            proof {
                assert forall|x: int|
                    0 <= x < pre0.n() implies deact_frame(
                    pre0.tasks@[x],
                    #[trigger] self.tasks@[x],
                ) by {
                    lemma_deact_frame_trans(pre0.tasks@[x], iter_pre0.tasks@[x], self.tasks@[x]);
                }
                assert forall|k: int|
                    0 <= k < i + 1 && pre0.parents_of(#[trigger] batch@[k] as int)
                        == 0 implies !self.active_of(batch@[k] as int) by {
                    let b = batch@[k] as int;
                    if k == i {
                        assert(deact_frame(pre0.tasks@[b], iter_pre0.tasks@[b]));
                        assert(iter_pre0.parents_of(b) == 0);
                        if iter_pre0.active_of(b) {
                        } else {
                            assert(deact_frame(iter_pre0.tasks@[b], self.tasks@[b]));
                        }
                    } else {
                        assert(!iter_pre0.active_of(b));
                        assert(deact_frame(iter_pre0.tasks@[b], self.tasks@[b]));
                    }
                }
            }
            i += 1;
        }
    }

    /// Runs up to `fuel` pending deferred jobs: parent-reference releases
    /// from detached children, then deferred activations, then deferred
    /// deactivations. Returns whether every queue drained.
    pub fn drain_pending(&mut self, fuel: usize) -> (quiet: bool)
        requires
            old(self).wf(),
        ensures
            final(self).wf(),
            final(self).n() == old(self).n(),
            quiet == (final(self).deferred_activations@.len() == 0 && final(self).deferred_deactivations@.len() == 0 && final(self).deferred_removals@.len() == 0),
    {
        let mut steps: usize = fuel;
        while steps > 0
            invariant
                self.wf(),
                self.n() == old(self).n(),
            decreases steps,
        {
            steps = steps - 1;
            let ghost iter_pre = *self;
            let r = self.deferred_removals.pop();
            match r {
                Some(c) => {
                    proof {
                        assert(iter_pre.deferred_removals@.last() < iter_pre.n());
                        assert forall|x: int| 0 <= x < self.n() implies self.activity_ok(x) by {
                            assert(iter_pre.activity_ok(x));
                        }
                        assert forall|k: int|
                            0 <= k < self.deferred_removals@.len() implies (
                        #[trigger] self.deferred_removals@[k]) < self.n() by {
                            assert(iter_pre.deferred_removals@[k] < iter_pre.n());
                        }
                    }
                    self.remove(c);
                },
                None => {
                    let a = self.deferred_activations.pop();
                    match a {
                        Some(c) => {
                            proof {
                                assert(iter_pre.deferred_activations@.last() < iter_pre.n());
                                assert forall|k: int|
                                    0 <= k < self.deferred_activations@.len() implies (
                                #[trigger] self.deferred_activations@[k]) < self.n() by {
                                    assert(iter_pre.deferred_activations@[k] < iter_pre.n());
                                }
                                assert forall|x: int|
                                    0 <= x < self.n() implies self.deact_cover_ok(x) && (x
                                    != c as int ==> self.act_cover_ok(x)) by {
                                    assert(iter_pre.activity_ok(x));
                                    if x != c as int && !self.active_of(x) && self.parents_of(x)
                                        > 0 {
                                        lemma_drop_last_contains(
                                            iter_pre.deferred_activations@,
                                            x as usize,
                                        );
                                    }
                                }
                                assert(self.activity_inv_except_activation(c as int));
                            }
                            self.activate_at(c, 0);
                        },
                        None => {
                            let d = self.deferred_deactivations.pop();
                            match d {
                                Some(c) => {
                                    proof {
                                        assert(iter_pre.deferred_deactivations@.last()
                                            < iter_pre.n());
                                        assert forall|k: int|
                                            0 <= k < self.deferred_deactivations@.len() implies (
                                        #[trigger] self.deferred_deactivations@[k]) < self.n() by {
                                            assert(iter_pre.deferred_deactivations@[k]
                                                < iter_pre.n());
                                        }
                                        assert forall|x: int|
                                            0 <= x < self.n() implies self.act_cover_ok(x) && (x
                                            != c as int ==> self.deact_cover_ok(x)) by {
                                            assert(iter_pre.activity_ok(x));
                                            if x != c as int && self.active_of(x)
                                                && self.parents_of(x) == 0 {
                                                lemma_drop_last_contains(
                                                    iter_pre.deferred_deactivations@,
                                                    x as usize,
                                                );
                                            }
                                        }
                                        assert(self.activity_inv_except_deactivation(c as int));
                                    }
                                    self.deactivate_at(c, 0);
                                },
                                None => {
                                    proof {
                                        assert forall|x: int|
                                            0 <= x < self.n() implies self.activity_ok(x) by {
                                            assert(iter_pre.activity_ok(x));
                                        }
                                    }
                                    return true;
                                },
                            }
                        },
                    }
                },
            }
        }
        let quiet = self.deferred_removals.len() == 0 && self.deferred_activations.len() == 0
            && self.deferred_deactivations.len() == 0;
        quiet
    }
}

/// Law: once every deferred activation and deactivation batch has drained,
/// `active == (active_parent_count > 0)` holds for every task.
pub proof fn lemma_quiescent_activity(e: Engine)
    requires
        e.wf(),
        e.deferred_activations@.len() == 0,
        e.deferred_deactivations@.len() == 0,
    ensures
        forall|t: int| 0 <= t < e.n() ==> (e.active_of(t) <==> e.parents_of(t) > 0),
{
    assert forall|t: int| 0 <= t < e.n() implies (e.active_of(t) <==> e.parents_of(t) > 0) by {
        assert(e.activity_ok(t));
        if e.active_of(t) && e.parents_of(t) == 0 {
            assert(e.deferred_deactivations@.contains(t as usize));
            let j = choose|j: int|
                0 <= j < e.deferred_deactivations@.len() && e.deferred_deactivations@[j]
                    == t as usize;
            assert(false);
        }
        if !e.active_of(t) && e.parents_of(t) > 0 {
            assert(e.deferred_activations@.contains(t as usize));
            let j = choose|j: int|
                0 <= j < e.deferred_activations@.len() && e.deferred_activations@[j] == t as usize;
            assert(false);
        }
    }
}

/// A reader set that only lost the reader `t` still contains only ids below
/// the arena size.
proof fn lemma_reader_ids_bounded(pre: Seq<TaskId>, post: Seq<TaskId>, t: TaskId, n: nat)
    requires
        crate::engine::reader_removed(pre, post, t),
        forall|k: int| 0 <= k < pre.len() ==> (#[trigger] pre[k]) < n,
    ensures
        forall|k: int| 0 <= k < post.len() ==> (#[trigger] post[k]) < n,
{
    assert forall|k: int| 0 <= k < post.len() implies (#[trigger] post[k]) < n by {
        let y = post[k];
        assert(post.contains(y));
        assert(pre.contains(y));
        let j = choose|j: int| 0 <= j < pre.len() && pre[j] == y;
        assert(pre[j] < n);
    }
}

/// The task frame during an invalidation sweep over the readers of a changed
/// value: phases may step by the invalidation table, reader sets may shrink,
/// dependency sets may be cleared; identity, results and counters stay.
pub open spec fn sweep_task_frame(pre: Task, post: Task) -> bool {
    &&& post.id == pre.id
    &&& post.call == pre.call
    &&& post.inputs == pre.inputs
    &&& post.active_parents == pre.active_parents
    &&& post.state.active == pre.state.active
    &&& (post.state.phase == pre.state.phase || post.state.phase == crate::task::invalidated_phase(
        pre.state.phase,
        pre.state.active,
    ))
    &&& post.state.children == pre.state.children
    &&& post.state.event == pre.state.event
    &&& post.state.executions == pre.state.executions
    &&& forall|y: TaskId|
        #[trigger] post.state.output.dependent_tasks@.contains(y)
            ==> pre.state.output.dependent_tasks@.contains(y)
    &&& post.state.slots@.len() == pre.state.slots@.len()
    &&& forall|i: int, y: TaskId|
        0 <= i < pre.state.slots@.len() && (#[trigger] post.state.slots@[i].dependent_tasks@.contains(
            y,
        )) ==> pre.state.slots@[i].dependent_tasks@.contains(y)
    &&& (post.execution.dependencies@ == pre.execution.dependencies@
        || post.execution.dependencies@.len() == 0)
    &&& post.execution.previous_slots == pre.execution.previous_slots
}

/// The whole effect of invalidating every reader of a changed value owned by
/// task `owner` (the owner itself is never swept): every task moves within
/// `sweep_task_frame`, the owner's phase and dependencies are untouched, and
/// the ready queue only grows.
pub open spec fn sweep_frame(pre: Engine, post: Engine, owner: int) -> bool {
    &&& post.n() == pre.n()
    &&& forall|x: int|
        0 <= x < pre.n() ==> sweep_task_frame(pre.tasks@[x], #[trigger] post.tasks@[x])
    &&& forall|x: int|
        0 <= x < pre.n() && x != owner ==> (#[trigger] post.tasks@[x]).state.output.content
            == pre.tasks@[x].state.output.content
    &&& forall|x: int, i: int|
        0 <= x < pre.n() && 0 <= i < pre.tasks@[x].state.slots@.len() ==> (
        #[trigger] post.tasks@[x].state.slots@[i]).content == pre.tasks@[x].state.slots@[i].content
    &&& post.phase_of(owner) == pre.phase_of(owner)
    &&& post.tasks@[owner].execution.dependencies@ == pre.tasks@[owner].execution.dependencies@
    &&& pre.scheduled@.is_prefix_of(post.scheduled@)
    &&& post.deferred_activations == pre.deferred_activations
    &&& post.deferred_deactivations == pre.deferred_deactivations
    &&& post.deferred_removals == pre.deferred_removals
    &&& post.current_task == pre.current_task
    &&& post.captured == pre.captured
    &&& post.current_prev == pre.current_prev
}

/// What a reader of the changed value is guaranteed: unless it is a `Once`
/// task, its phase has stepped by the invalidation table, and it has been
/// enqueued when that table schedules it.
pub open spec fn reader_invalidated(pre: Engine, post: Engine, d: int) -> bool {
    pre.tasks@[d].call matches CallType::Once || {
        &&& post.phase_of(d) == crate::task::invalidated_phase(pre.phase_of(d), pre.active_of(d))
        &&& (crate::task::invalidation_schedules(pre.phase_of(d), pre.active_of(d))
            ==> post.scheduled@.contains(d as usize))
    }
}

impl Engine {
    /// Invalidates every reader recorded on the output of task `owner`,
    /// except the owner itself.
    fn invalidate_output_readers(&mut self, owner: TaskId)
        requires
            old(self).wf(),
            owner < old(self).n(),
        ensures
            final(self).wf(),
            sweep_frame(*old(self), *final(self), owner as int),
            forall|d: TaskId|
                old(self).tasks@[owner as int].state.output.dependent_tasks@.contains(d) && d
                    != owner ==> reader_invalidated(*old(self), *final(self), d as int),
            final(self).tasks@[owner as int].state.output.content == old(self).tasks@[owner as
                int].state.output.content,
    {
        let ghost pre0 = *old(self);
        let readers = clone_ids(&self.tasks[owner].state.output.dependent_tasks);
        proof {
            lemma_prefix_refl(pre0.scheduled@);
        }
        let m = readers.len();
        let mut i: usize = 0;
        while i < m
            invariant
                self.wf(),
                owner < self.n(),
                m == readers@.len(),
                i <= m,
                readers@ == pre0.tasks@[owner as int].state.output.dependent_tasks@,
                crate::sets::no_dup(readers@),
                forall|k: int| 0 <= k < readers@.len() ==> (#[trigger] readers@[k]) < self.n(),
                sweep_frame(pre0, *self, owner as int),
                self.tasks@[owner as int].state.output.content == pre0.tasks@[owner as
                    int].state.output.content,
                forall|j: int|
                    0 <= j < i && readers@[j] != owner ==> reader_invalidated(
                        pre0,
                        *self,
                        #[trigger] readers@[j] as int,
                    ),
                forall|j: int|
                    i <= j < readers@.len() ==> self.phase_of(#[trigger] readers@[j] as int)
                        == pre0.phase_of(readers@[j] as int),
            decreases m - i,
        {
            let ghost iter_pre = *self;
            let d = readers[i];
            if d != owner {
                self.make_dirty(d);
                proof {
                    let post = *self;
                    if !(iter_pre.tasks@[d as int].call matches CallType::Once) {
                        assert(dirtied(iter_pre, post, d as int));
                        if crate::task::invalidation_schedules(
                            pre0.phase_of(d as int),
                            pre0.active_of(d as int),
                        ) {
                            assert(post.scheduled@.last() == d);
                            assert(post.scheduled@.contains(d));
                        }
                        lemma_push_prefix(iter_pre.scheduled@, d);
                    } else {
                        lemma_prefix_refl(iter_pre.scheduled@);
                    }
                    lemma_prefix_trans(pre0.scheduled@, iter_pre.scheduled@, self.scheduled@);
                    assert forall|x: int|
                        0 <= x < pre0.n() implies sweep_task_frame(
                        pre0.tasks@[x],
                        #[trigger] post.tasks@[x],
                    ) by {
                        assert(sweep_task_frame(pre0.tasks@[x], iter_pre.tasks@[x]));
                    }
                    assert forall|x: int, si: int|
                        0 <= x < pre0.n() && 0 <= si
                            < pre0.tasks@[x].state.slots@.len() implies (
                    #[trigger] post.tasks@[x].state.slots@[si]).content
                        == pre0.tasks@[x].state.slots@[si].content by {
                        assert(iter_pre.tasks@[x].state.slots@[si].content
                            == pre0.tasks@[x].state.slots@[si].content);
                    }
                    assert forall|j: int|
                        i < j < readers@.len() implies post.phase_of(#[trigger] readers@[j] as int)
                        == pre0.phase_of(readers@[j] as int) by {
                        assert(readers@[j] != readers@[i as int]);
                        assert(only_reader_removed(
                            iter_pre.tasks@[readers@[j] as int],
                            post.tasks@[readers@[j] as int],
                            d,
                        ) || iter_pre.tasks@[d as int].call matches CallType::Once);
                    }
                    assert forall|j: int|
                        0 <= j < i + 1 && readers@[j] != owner implies reader_invalidated(
                        pre0,
                        post,
                        #[trigger] readers@[j] as int,
                    ) by {
                        if j < i {
                            assert(reader_invalidated(pre0, iter_pre, readers@[j] as int));
                            if !(pre0.tasks@[readers@[j] as int].call matches CallType::Once)
                                && crate::task::invalidation_schedules(
                                pre0.phase_of(readers@[j] as int),
                                pre0.active_of(readers@[j] as int),
                            ) {
                                lemma_prefix_contains(
                                    iter_pre.scheduled@,
                                    post.scheduled@,
                                    readers@[j],
                                );
                            }
                        }
                    }
                }
            }
            i += 1;
        }
    }

    /// First step of the coordinator's three-phase protocol: returns whether
    /// the body should run. An inactive or already-running task is skipped; a
    /// `Scheduled` task moves to `InProgress`, its execution counter rises,
    /// and its former children are detached into the removal batch.
    /// Starting from `Dirty` is a fatal protocol violation, excluded here.
    pub fn execution_started(&mut self, t: TaskId) -> (r: bool)
        requires
            old(self).wf(),
            t < old(self).n(),
            old(self).phase_of(t as int) != TaskPhase::Dirty,
        ensures
            final(self).wf(),
            final(self).n() == old(self).n(),
            r == (old(self).active_of(t as int) && old(self).phase_of(t as int)
                == TaskPhase::Scheduled),
            !r ==> *final(self) == *old(self),
            r ==> {
                &&& final(self).phase_of(t as int) == TaskPhase::InProgress
                &&& crate::task::allowed_phase_step(
                    TaskPhase::Scheduled,
                    TaskPhase::InProgress,
                    old(self).active_of(t as int),
                )
                &&& old(self).tasks@[t as int].state.executions < u32::MAX ==> final(self).tasks@[t as int].state.executions == old(self).tasks@[t as
                    int].state.executions + 1
                &&& final(self).tasks@[t as int].state.children@.len() == 0
                &&& final(self).deferred_removals@ == old(self).deferred_removals@ + old(self).tasks@[t as int].state.children@
                &&& final(self).tasks@[t as int].state.output == old(self).tasks@[t as
                    int].state.output
                &&& final(self).tasks@[t as int].state.slots == old(self).tasks@[t as
                    int].state.slots
                &&& final(self).tasks@[t as int].state.active == old(self).active_of(t as int)
                &&& final(self).tasks@[t as int].active_parents == old(self).parents_of(t as int)
                &&& final(self).tasks@[t as int].execution == old(self).tasks@[t as int].execution
                &&& forall|x: int|
                    0 <= x < old(self).n() && x != t ==> final(self).tasks@[x] == old(self).tasks@[x]
                &&& final(self).scheduled == old(self).scheduled
                &&& final(self).deferred_activations == old(self).deferred_activations
                &&& final(self).deferred_deactivations == old(self).deferred_deactivations
                &&& final(self).current_task == old(self).current_task
                &&& final(self).captured == old(self).captured
                &&& final(self).current_prev == old(self).current_prev
            },
    {
        let ghost pre0 = *old(self);
        if !self.tasks[t].state.active {
            return false;
        }
        match self.tasks[t].state.phase {
            TaskPhase::Done | TaskPhase::InProgress | TaskPhase::InProgressDirty => {
                return false;
            },
            _ => {
            },
        }
        self.tasks[t].state.phase = TaskPhase::InProgress;
        let ex = self.tasks[t].state.executions;
        if ex < u32::MAX {
            self.tasks[t].state.executions = ex + 1;
        }
        let ghost mid = *self;
        proof {
            assert forall|x: int| 0 <= x < self.n() implies (#[trigger] self.tasks@[x]).wf(
                self.n(),
            ) && self.tasks@[x].id == x by {
                assert(pre0.tasks@[x].wf(pre0.n()));
            }
            assert(self.tasks@[t as int].state.children@ =~= pre0.tasks@[t as
                int].state.children@.subrange(0, pre0.tasks@[t as int].state.children@.len() as int));
            assert forall|x: int| 0 <= x < self.n() implies self.activity_ok(x) by {
                assert(pre0.activity_ok(x));
            }
        }
        proof {
            assert(self.deferred_removals@ =~= mid.deferred_removals@ + mid.tasks@[t as
                int].state.children@.subrange(0, 0));
        }
        let n_children = self.tasks[t].state.children.len();
        let mut i: usize = 0;
        while i < n_children
            invariant
                self.wf_base(),
                self.activity_inv(),
                t < self.n(),
                self.n() == mid.n(),
                n_children == mid.tasks@[t as int].state.children@.len(),
                i <= n_children,
                *self == (Engine {
                    tasks: self.tasks,
                    deferred_removals: self.deferred_removals,
                    ..mid
                }),
                forall|x: int| 0 <= x < self.n() && x != t ==> self.tasks@[x] == mid.tasks@[x],
                self.tasks@[t as int] == mid.tasks@[t as int],
                self.deferred_removals@ == mid.deferred_removals@ + mid.tasks@[t as
                    int].state.children@.subrange(0, i as int),
            decreases n_children - i,
        {
            let ghost iter_pre = *self;
            let c = self.tasks[t].state.children[i];
            self.deferred_removals.push(c);
            proof {
                assert(self.deferred_removals@ =~= mid.deferred_removals@ + mid.tasks@[t as
                    int].state.children@.subrange(0, i + 1));
                assert forall|k: int| 0 <= k < self.deferred_removals@.len() implies (
                #[trigger] self.deferred_removals@[k]) < self.n() by {
                    if k < iter_pre.deferred_removals@.len() {
                        assert(iter_pre.deferred_removals@[k] < iter_pre.n());
                    } else {
                        assert(self.deferred_removals@[k] == c);
                    }
                }
                assert forall|x: int| 0 <= x < self.n() implies self.activity_ok(x) by {
                    assert(iter_pre.activity_ok(x));
                }
            }
            i += 1;
        }
        let ghost swept = *self;
        self.tasks[t].state.children = Vec::new();
        proof {
            assert(self.tasks@[t as int].state.children@ =~= Seq::<TaskId>::empty());
            assert(mid.tasks@ == pre0.tasks@.update(t as int, mid.tasks@[t as int]));
            assert forall|x: int|
                0 <= x < pre0.n() && x != t as int implies self.tasks@[x] == pre0.tasks@[x] by {
                assert(self.tasks@[x] == swept.tasks@[x]);
                assert(swept.tasks@[x] == mid.tasks@[x]);
                assert(mid.tasks@[x] == pre0.tasks@[x]);
            }
            assert forall|x: int| 0 <= x < self.n() implies (#[trigger] self.tasks@[x]).wf(
                self.n(),
            ) && self.tasks@[x].id == x by {
                assert(swept.tasks@[x].wf(swept.n()));
            }
            assert forall|x: int| 0 <= x < self.n() implies self.activity_ok(x) by {
                assert(swept.activity_ok(x));
            }
            assert(self.deferred_removals@ == pre0.deferred_removals@ + pre0.tasks@[t as
                int].state.children@) by {
                assert(mid.tasks@[t as int].state.children@.subrange(
                    0,
                    mid.tasks@[t as int].state.children@.len() as int,
                ) =~= mid.tasks@[t as int].state.children@);
            }
            if pre0.current_task is Some {
                let c = pre0.current_task->0;
                assert(self.tasks@[c as int].state.slots@.len() == pre0.tasks@[c as
                    int].state.slots@.len());
            }
        }
        true
    }

    /// Second step of the protocol: commits the body's outcome into the
    /// output cell and invalidates its readers — unless the run was already
    /// dirtied, in which case the outcome is discarded to avoid an
    /// unnecessary update. Completing from any phase other than
    /// `InProgress`/`InProgressDirty` is a fatal protocol violation.
    pub fn execution_result(&mut self, t: TaskId, result: Result<RawVc, String>)
        requires
            old(self).wf(),
            t < old(self).n(),
            old(self).phase_of(t as int) == TaskPhase::InProgress || old(self).phase_of(t as int)
                == TaskPhase::InProgressDirty,
            result matches Ok(vc) ==> old(self).vc_ok(vc),
        ensures
            final(self).wf(),
            old(self).phase_of(t as int) == TaskPhase::InProgressDirty ==> *final(self) == *old(self),
            old(self).phase_of(t as int) == TaskPhase::InProgress ==> {
                &&& final(self).tasks@[t as int].state.output.content == (match result {
                    Ok(vc) => OutputContent::Link(vc),
                    Err(msg) => OutputContent::Failure(msg),
                })
                &&& sweep_frame(*old(self), *final(self), t as int)
                &&& forall|d: TaskId|
                    old(self).tasks@[t as int].state.output.dependent_tasks@.contains(d) && d != t
                        ==> reader_invalidated(*old(self), *final(self), d as int)
            },
    {
        let ghost pre0 = *old(self);
        match self.tasks[t].state.phase {
            TaskPhase::InProgressDirty => {
                return ;
            },
            _ => {
            },
        }
        match result {
            Ok(vc) => {
                self.tasks[t].state.output.content = OutputContent::Link(vc);
            },
            Err(msg) => {
                self.tasks[t].state.output.content = OutputContent::Failure(msg);
            },
        }
        let ghost mid = *self;
        proof {
            assert forall|x: int| 0 <= x < self.n() implies (#[trigger] self.tasks@[x]).wf(
                self.n(),
            ) && self.tasks@[x].id == x by {
                assert(pre0.tasks@[x].wf(pre0.n()));
            }
            assert forall|x: int| 0 <= x < self.n() implies self.activity_ok(x) by {
                assert(pre0.activity_ok(x));
            }
            assert forall|x: int|
                0 <= x < self.n() implies ((#[trigger] self.tasks@[x].state.output.content) matches
            OutputContent::Link(lvc) ==> self.vc_ok(lvc)) by {
                assert((pre0.tasks@[x].state.output.content matches OutputContent::Link(lvc)
                    ==> pre0.vc_ok(lvc)));
            }
            if pre0.current_task is Some {
                let c = pre0.current_task->0;
                assert(self.tasks@[c as int].state.slots@.len() == pre0.tasks@[c as
                    int].state.slots@.len());
            }
        }
        self.invalidate_output_readers(t);
        proof {
            assert forall|x: int|
                0 <= x < pre0.n() implies sweep_task_frame(
                pre0.tasks@[x],
                #[trigger] self.tasks@[x],
            ) by {
                assert(sweep_task_frame(mid.tasks@[x], self.tasks@[x]));
            }
            assert forall|d: TaskId|
                pre0.tasks@[t as int].state.output.dependent_tasks@.contains(d) && d
                    != t implies reader_invalidated(pre0, *self, d as int) by {
                assert(d < pre0.n()) by {
                    assert(pre0.tasks@[t as int].wf(pre0.n()));
                    let j = choose|j: int|
                        0 <= j < pre0.tasks@[t as int].state.output.dependent_tasks@.len()
                            && pre0.tasks@[t as int].state.output.dependent_tasks@[j] == d;
                }
                assert(reader_invalidated(mid, *self, d as int));
                assert(mid.phase_of(d as int) == pre0.phase_of(d as int));
                assert(mid.active_of(d as int) == pre0.active_of(d as int));
                assert(mid.tasks@[d as int].call == pre0.tasks@[d as int].call);
            }
        }
    }

    /// Third step of the protocol: commits the captured dependencies and the
    /// previous-slot mapping into the task, then finishes by the transition
    /// table — `InProgress` becomes `Done` and waiting observers are woken;
    /// a run dirtied mid-execution discards its capture and is rescheduled
    /// exactly when the task is still active.
    pub fn execution_completed(&mut self, t: TaskId)
        requires
            old(self).wf(),
            t < old(self).n(),
            old(self).current_task == Some(t),
            old(self).phase_of(t as int) == TaskPhase::InProgress || old(self).phase_of(t as int)
                == TaskPhase::InProgressDirty,
        ensures
            final(self).wf(),
            final(self).n() == old(self).n(),
            final(self).current_task is None,
            final(self).phase_of(t as int) == crate::task::completed_phase(
                old(self).phase_of(t as int),
                old(self).active_of(t as int),
            ),
            crate::task::allowed_phase_step(
                old(self).phase_of(t as int),
                final(self).phase_of(t as int),
                old(self).active_of(t as int),
            ),
            old(self).phase_of(t as int) == TaskPhase::InProgress ==> {
                &&& final(self).tasks@[t as int].execution.dependencies@ == old(self).captured@
                &&& final(self).tasks@[t as int].execution.previous_slots == old(self).current_prev
                &&& final(self).scheduled == old(self).scheduled
                &&& forall|x: int|
                    0 <= x < old(self).n() && x != t ==> final(self).tasks@[x] == old(self).tasks@[x]
            },
            old(self).phase_of(t as int) == TaskPhase::InProgressDirty ==> {
                &&& final(self).tasks@[t as int].execution.dependencies@.len() == 0
                &&& forall|k: int|
                    0 <= k < old(self).captured@.len() ==> back_edge_gone(
                        *final(self),
                        #[trigger] old(self).captured@[k],
                        t,
                    )
                &&& forall|x: int|
                    0 <= x < old(self).n() && x != t ==> only_reader_removed(
                        old(self).tasks@[x],
                        #[trigger] final(self).tasks@[x],
                        t,
                    )
                &&& if crate::task::completion_schedules(
                    old(self).phase_of(t as int),
                    old(self).active_of(t as int),
                ) {
                    final(self).scheduled@ == old(self).scheduled@.push(t)
                } else {
                    final(self).scheduled@ == old(self).scheduled@
                }
            },
            final(self).tasks@[t as int].state.executions == old(self).tasks@[t as
                int].state.executions,
            final(self).tasks@[t as int].state.output.content == old(self).tasks@[t as
                int].state.output.content,
    {
        let ghost pre0 = *old(self);
        let mut prev = crate::prev_slots::PrevSlots::empty();
        core::mem::swap(&mut prev, &mut self.current_prev);
        let mut deps: Vec<RawVc> = Vec::new();
        core::mem::swap(&mut deps, &mut self.captured);
        self.tasks[t].execution.previous_slots = prev;
        self.tasks[t].execution.dependencies = deps;
        self.current_task = None;
        let ghost mid = *self;
        proof {
            assert forall|x: int| 0 <= x < self.n() implies (#[trigger] self.tasks@[x]).wf(
                self.n(),
            ) && self.tasks@[x].id == x by {
                assert(pre0.tasks@[x].wf(pre0.n()));
            }
            assert forall|x: int| 0 <= x < self.n() implies self.activity_ok(x) by {
                assert(pre0.activity_ok(x));
            }
            assert forall|x: int, k: int|
                0 <= x < self.n() && 0 <= k
                    < self.tasks@[x].execution.dependencies@.len() implies self.vc_ok(
                #[trigger] self.tasks@[x].execution.dependencies@[k],
            ) by {
                if x == t {
                    assert(pre0.vc_ok(pre0.captured@[k]));
                } else {
                    assert(pre0.vc_ok(pre0.tasks@[x].execution.dependencies@[k]));
                }
            }
            assert forall|x: int|
                0 <= x < self.n() implies ((#[trigger] self.tasks@[x].state.output.content) matches
            OutputContent::Link(lvc) ==> self.vc_ok(lvc)) by {
                assert((pre0.tasks@[x].state.output.content matches OutputContent::Link(lvc)
                    ==> pre0.vc_ok(lvc)));
            }
        }
        match self.tasks[t].state.phase {
            TaskPhase::InProgress => {
                self.tasks[t].state.phase = TaskPhase::Done;
                notify_all(&self.tasks[t].state.event);
                proof {
                    assert forall|x: int| 0 <= x < self.n() implies (
                    #[trigger] self.tasks@[x]).wf(self.n()) && self.tasks@[x].id == x by {
                        assert(mid.tasks@[x].wf(mid.n()));
                    }
                    assert forall|x: int| 0 <= x < self.n() implies self.activity_ok(x) by {
                        assert(mid.activity_ok(x));
                    }
                }
            },
            _ => {
                self.clear_dependencies(t);
                if self.tasks[t].state.active {
                    self.tasks[t].state.phase = TaskPhase::Scheduled;
                    self.scheduled.push(t);
                } else {
                    self.tasks[t].state.phase = TaskPhase::Dirty;
                }
                proof {
                    let post = *self;
                    assert forall|x: int| 0 <= x < self.n() implies (
                    #[trigger] self.tasks@[x]).wf(self.n()) && self.tasks@[x].id == x by {
                        assert(mid.tasks@[x].wf(mid.n()));
                    }
                    assert forall|x: int| 0 <= x < self.n() implies self.activity_ok(x) by {
                        assert(mid.activity_ok(x));
                    }
                    assert forall|k: int| 0 <= k < self.scheduled@.len() implies (
                    #[trigger] self.scheduled@[k]) < self.n() by {
                        if k < mid.scheduled@.len() {
                            assert(mid.scheduled@[k] < mid.n());
                        }
                    }
                    assert forall|x: int, k: int|
                        0 <= x < self.n() && 0 <= k
                            < self.tasks@[x].execution.dependencies@.len() implies self.vc_ok(
                        #[trigger] self.tasks@[x].execution.dependencies@[k],
                    ) by {
                        assert(mid.vc_ok(mid.tasks@[x].execution.dependencies@[k]));
                    }
                    assert forall|x: int|
                        0 <= x < self.n() implies ((
                    #[trigger] self.tasks@[x].state.output.content) matches OutputContent::Link(
                        lvc,
                    ) ==> self.vc_ok(lvc)) by {
                        assert((mid.tasks@[x].state.output.content matches OutputContent::Link(lvc)
                            ==> mid.vc_ok(lvc)));
                    }
                }
            },
        }
    }

    /// Installs task `t` as the current execution: its previous-slot mapping
    /// is swapped into the context with all positional cursors reset, so slot
    /// requests replay against the prior execution's layout.
    pub fn set_current(&mut self, t: TaskId)
        requires
            old(self).wf(),
            t < old(self).n(),
            old(self).current_task is None,
        ensures
            final(self).wf(),
            final(self).n() == old(self).n(),
            final(self).current_task == Some(t),
            final(self).captured@.len() == 0,
            final(self).current_prev.by_key@ == old(self).tasks@[t as
                int].execution.previous_slots.by_key@,
            forall|ty: crate::ids::ValueTypeId|
                final(self).current_prev.type_cursor(ty) == 0 && final(self).current_prev.type_list(ty) == old(self).tasks@[t as
                    int].execution.previous_slots.type_list(ty),
            forall|ty: crate::ids::ValueTypeId, k: u64|
                final(self).current_prev.key_index(ty, k) == old(self).tasks@[t as
                    int].execution.previous_slots.key_index(ty, k),
            final(self).tasks@[t as int].execution.previous_slots.by_key@.len() == 0,
            final(self).tasks@[t as int].execution.previous_slots.by_type@.len() == 0,
            forall|x: int|
                0 <= x < old(self).n() && x != t ==> final(self).tasks@[x] == old(self).tasks@[x],
            final(self).tasks@[t as int].state == old(self).tasks@[t as int].state,
            final(self).tasks@[t as int].execution.dependencies == old(self).tasks@[t as
                int].execution.dependencies,
            final(self).scheduled == old(self).scheduled,
            final(self).deferred_activations == old(self).deferred_activations,
            final(self).deferred_deactivations == old(self).deferred_deactivations,
            final(self).deferred_removals == old(self).deferred_removals,
    {
        let ghost pre0 = *old(self);
        let mut tmp = crate::prev_slots::PrevSlots::empty();
        core::mem::swap(&mut tmp, &mut self.tasks[t].execution.previous_slots);
        tmp.reset_cursors();
        core::mem::swap(&mut tmp, &mut self.current_prev);
        self.current_task = Some(t);
        proof {
            assert forall|x: int| 0 <= x < self.n() implies (#[trigger] self.tasks@[x]).wf(
                self.n(),
            ) && self.tasks@[x].id == x by {
                assert(pre0.tasks@[x].wf(pre0.n()));
            }
            assert forall|x: int| 0 <= x < self.n() implies self.activity_ok(x) by {
                assert(pre0.activity_ok(x));
            }
            assert forall|x: int, k: int|
                0 <= x < self.n() && 0 <= k
                    < self.tasks@[x].execution.dependencies@.len() implies self.vc_ok(
                #[trigger] self.tasks@[x].execution.dependencies@[k],
            ) by {
                assert(pre0.vc_ok(pre0.tasks@[x].execution.dependencies@[k]));
            }
            assert forall|x: int|
                0 <= x < self.n() implies ((#[trigger] self.tasks@[x].state.output.content) matches
            OutputContent::Link(lvc) ==> self.vc_ok(lvc)) by {
                assert((pre0.tasks@[x].state.output.content matches OutputContent::Link(lvc)
                    ==> pre0.vc_ok(lvc)));
            }
            assert(self.current_prev.wf(self.tasks@[t as int].state.slots@.len())) by {
                assert(pre0.tasks@[t as int].wf(pre0.n()));
            }
        }
    }

    /// An invalidator token for the current task, usable later to invalidate
    /// it based on external events.
    pub fn get_invalidator(&self) -> (r: Invalidator)
        requires
            self.current_task is Some,
        ensures
            r.task == self.current_task->0,
    {
        let t = match self.current_task {
            Some(c) => c,
            None => {
                proof {
                    assert(false);
                }
                0
            },
        };
        Invalidator { task: t }
    }

    /// The task whose execution currently runs on this worker, if any.
    pub fn current(&self) -> (r: Option<TaskId>)
        ensures
            r == self.current_task,
    {
        self.current_task
    }

    /// Records a value read by the current execution; it will be committed as
    /// a dependency when the execution finishes.
    pub fn add_dependency_to_current(&mut self, dep: RawVc)
        requires
            old(self).wf(),
            old(self).current_task is Some,
            old(self).vc_ok(dep),
        ensures
            final(self).wf(),
            final(self).captured@.contains(dep),
            forall|y: RawVc|
                #[trigger] final(self).captured@.contains(y) <==> (old(self).captured@.contains(y)
                    || y == dep),
            *final(self) == (Engine { captured: final(self).captured, ..*old(self) }),
    {
        let ghost pre0 = *old(self);
        vc_set_insert(&mut self.captured, dep);
        proof {
            assert forall|x: int| 0 <= x < self.n() implies self.activity_ok(x) by {
                assert(pre0.activity_ok(x));
            }
            assert forall|k: int| 0 <= k < self.captured@.len() implies self.vc_ok(
                #[trigger] self.captured@[k],
            ) by {
                if k < pre0.captured@.len() {
                    assert(pre0.vc_ok(pre0.captured@[k]));
                }
            }
        }
    }

    /// Appends a fresh, empty slot to task `t` and returns its stable index.
    pub fn get_fresh_slot(&mut self, t: TaskId) -> (idx: usize)
        requires
            old(self).wf(),
            t < old(self).n(),
        ensures
            final(self).wf(),
            final(self).n() == old(self).n(),
            idx == old(self).tasks@[t as int].state.slots@.len(),
            final(self).tasks@[t as int].state.slots@.len() == idx + 1,
            forall|i: int|
                0 <= i < idx ==> final(self).tasks@[t as int].state.slots@[i] == old(self).tasks@[t as int].state.slots@[i],
            final(self).tasks@[t as int].state.slots@[idx as int].content == SlotContent::Empty,
            final(self).tasks@[t as int].state.slots@[idx as
                int].dependent_tasks@.len() == 0,
            final(self).tasks@[t as int].state.active == old(self).active_of(t as int),
            final(self).tasks@[t as int].active_parents == old(self).parents_of(t as int),
            final(self).tasks@[t as int].state.children == old(self).tasks@[t as
                int].state.children,
            final(self).tasks@[t as int].state.event == old(self).tasks@[t as int].state.event,
            final(self).tasks@[t as int].state.executions == old(self).tasks@[t as
                int].state.executions,
            forall|x: int|
                0 <= x < old(self).n() && x != t ==> final(self).tasks@[x] == old(self).tasks@[x],
            final(self).tasks@[t as int].state.phase == old(self).phase_of(t as int),
            final(self).tasks@[t as int].state.output == old(self).tasks@[t as int].state.output,
            final(self).tasks@[t as int].execution == old(self).tasks@[t as int].execution,
            final(self).scheduled == old(self).scheduled,
            final(self).current_task == old(self).current_task,
            final(self).captured == old(self).captured,
            final(self).current_prev == old(self).current_prev,
            final(self).deferred_activations == old(self).deferred_activations,
            final(self).deferred_deactivations == old(self).deferred_deactivations,
            final(self).deferred_removals == old(self).deferred_removals,
    {
        let ghost pre0 = *old(self);
        let idx = self.tasks[t].state.slots.len();
        self.tasks[t].state.slots.push(Slot::new());
        proof {
            assert forall|x: int| 0 <= x < self.n() implies (#[trigger] self.tasks@[x]).wf(
                self.n(),
            ) && self.tasks@[x].id == x by {
                assert(pre0.tasks@[x].wf(pre0.n()));
                if x == t {
                    assert forall|i: int|
                        0 <= i < self.tasks@[x].state.slots@.len() implies (
                    #[trigger] self.tasks@[x].state.slots@[i]).wf(self.n()) by {
                        if i < idx {
                            assert(pre0.tasks@[x].state.slots@[i].wf(pre0.n()));
                        }
                    }
                    assert(self.tasks@[x].execution.previous_slots.wf(
                        self.tasks@[x].state.slots@.len(),
                    )) by {
                        assert(pre0.tasks@[x].execution.previous_slots.wf(
                            pre0.tasks@[x].state.slots@.len(),
                        ));
                    }
                }
            }
            assert forall|x: int| 0 <= x < self.n() implies self.activity_ok(x) by {
                assert(pre0.activity_ok(x));
            }
            assert forall|x: int, k: int|
                0 <= x < self.n() && 0 <= k
                    < self.tasks@[x].execution.dependencies@.len() implies self.vc_ok(
                #[trigger] self.tasks@[x].execution.dependencies@[k],
            ) by {
                assert(pre0.vc_ok(pre0.tasks@[x].execution.dependencies@[k]));
            }
            assert forall|x: int|
                0 <= x < self.n() implies ((#[trigger] self.tasks@[x].state.output.content) matches
            OutputContent::Link(lvc) ==> self.vc_ok(lvc)) by {
                assert((pre0.tasks@[x].state.output.content matches OutputContent::Link(lvc)
                    ==> pre0.vc_ok(lvc)));
            }
            if pre0.current_task is Some {
                let c = pre0.current_task->0;
                assert(self.current_prev.wf(self.tasks@[c as int].state.slots@.len())) by {
                    assert(pre0.current_prev.wf(pre0.tasks@[c as int].state.slots@.len()));
                    lemma_prev_wf_grow(
                        pre0.current_prev,
                        pre0.tasks@[c as int].state.slots@.len(),
                        self.tasks@[c as int].state.slots@.len(),
                    );
                }
            }
        }
        idx
    }
}

/// Previous-slot well-formedness only bounds indices from above, so it is
/// preserved when the slot list grows.
proof fn lemma_prev_wf_grow(m: crate::prev_slots::PrevSlots, n1: nat, n2: nat)
    requires
        m.wf(n1),
        n1 <= n2,
    ensures
        m.wf(n2),
{
    assert forall|i: int| 0 <= i < m.by_key@.len() implies (#[trigger] m.by_key@[i]).index
        < n2 by {
        assert(m.by_key@[i].index < n1);
    }
    assert forall|i: int, j: int|
        0 <= i < m.by_type@.len() && 0 <= j < m.by_type@[i].indices@.len() implies (
    #[trigger] m.by_type@[i].indices@[j]) < n2 by {
        assert(m.by_type@[i].indices@[j] < n1);
    }
}

impl Engine {
    /// Reads task `t`'s output on behalf of the current execution: registers
    /// the dependency, and either returns the committed content (adding the
    /// reader back-edge) or a listener to await, registered before returning
    /// so no wakeup can be missed.
    pub fn read_output(&mut self, t: TaskId) -> (r: Result<
        OutputContent,
        event_listener::EventListener,
    >)
        requires
            old(self).wf(),
            t < old(self).n(),
            old(self).current_task is Some,
        ensures
            final(self).wf(),
            final(self).n() == old(self).n(),
            (r is Ok) == (old(self).phase_of(t as int) == TaskPhase::Done),
            r matches Ok(c) ==> c == old(self).tasks@[t as int].state.output.content,
            final(self).captured@.contains(RawVc::TaskOutput(t)),
            forall|y: RawVc|
                #[trigger] final(self).captured@.contains(y) <==> (old(self).captured@.contains(y)
                    || y == RawVc::TaskOutput(t)),
            r is Ok ==> final(self).tasks@[t as int].state.output.dependent_tasks@.contains(
                old(self).current_task->0,
            ),
            read_frame(*old(self), *final(self)),
            forall|x: int|
                0 <= x < old(self).n() ==> (#[trigger] final(self).tasks@[x]).state.phase == old(self).tasks@[x].state.phase && final(self).tasks@[x].state.output.content == old(self).tasks@[x].state.output.content,
            final(self).scheduled == old(self).scheduled,
            final(self).current_task == old(self).current_task,
            final(self).current_prev == old(self).current_prev,
    {
        let ghost pre0 = *old(self);
        let cur = match self.current_task {
            Some(c) => c,
            None => {
                proof {
                    assert(false);
                }
                0
            },
        };
        self.add_dependency_to_current(RawVc::TaskOutput(t));
        let ghost dep_post = *self;
        let done = match self.tasks[t].state.phase {
            TaskPhase::Done => true,
            _ => false,
        };
        if done {
            id_set_insert(&mut self.tasks[t].state.output.dependent_tasks, cur);
            proof {
                assert forall|x: int| 0 <= x < self.n() implies (#[trigger] self.tasks@[x]).wf(
                    self.n(),
                ) && self.tasks@[x].id == x by {
                    assert(dep_post.tasks@[x].wf(dep_post.n()));
                }
                assert forall|x: int| 0 <= x < self.n() implies self.activity_ok(x) by {
                    assert(dep_post.activity_ok(x));
                }
                assert forall|x: int, k: int|
                    0 <= x < self.n() && 0 <= k
                        < self.tasks@[x].execution.dependencies@.len() implies self.vc_ok(
                    #[trigger] self.tasks@[x].execution.dependencies@[k],
                ) by {
                    assert(dep_post.vc_ok(dep_post.tasks@[x].execution.dependencies@[k]));
                }
                assert forall|x: int|
                    0 <= x < self.n() implies ((
                #[trigger] self.tasks@[x].state.output.content) matches OutputContent::Link(lvc)
                    ==> self.vc_ok(lvc)) by {
                    assert((dep_post.tasks@[x].state.output.content matches OutputContent::Link(
                        lvc,
                    ) ==> dep_post.vc_ok(lvc)));
                }
                assert forall|k: int| 0 <= k < self.captured@.len() implies self.vc_ok(
                    #[trigger] self.captured@[k],
                ) by {
                    assert(dep_post.vc_ok(dep_post.captured@[k]));
                }
            }
            let content = self.tasks[t].state.output.content.duplicate();
            Ok(content)
        } else {
            Err(listen(&self.tasks[t].state.event))
        }
    }

    /// Reads slot `index` of task `t` on behalf of the current execution:
    /// registers the dependency, and either returns the content (adding the
    /// reader back-edge) or a listener to await while the owner is not done.
    pub fn read_slot(&mut self, t: TaskId, index: usize) -> (r: Result<
        SlotContent,
        event_listener::EventListener,
    >)
        requires
            old(self).wf(),
            t < old(self).n(),
            index < old(self).tasks@[t as int].state.slots@.len(),
            old(self).current_task is Some,
        ensures
            final(self).wf(),
            final(self).n() == old(self).n(),
            (r is Ok) == (old(self).phase_of(t as int) == TaskPhase::Done),
            r matches Ok(c) ==> c == old(self).tasks@[t as int].state.slots@[index as int].content,
            final(self).captured@.contains(RawVc::TaskSlot(t, index)),
            r is Ok ==> final(self).tasks@[t as int].state.slots@[index as
                int].dependent_tasks@.contains(old(self).current_task->0),
            read_frame(*old(self), *final(self)),
            forall|x: int|
                0 <= x < old(self).n() ==> (#[trigger] final(self).tasks@[x]).state.phase == old(self).tasks@[x].state.phase && final(self).tasks@[x].state.output.content == old(self).tasks@[x].state.output.content,
            final(self).scheduled == old(self).scheduled,
            final(self).current_task == old(self).current_task,
            final(self).current_prev == old(self).current_prev,
    {
        let ghost pre0 = *old(self);
        let cur = match self.current_task {
            Some(c) => c,
            None => {
                proof {
                    assert(false);
                }
                0
            },
        };
        self.add_dependency_to_current(RawVc::TaskSlot(t, index));
        let ghost dep_post = *self;
        let done = match self.tasks[t].state.phase {
            TaskPhase::Done => true,
            _ => false,
        };
        if done {
            id_set_insert(&mut self.tasks[t].state.slots[index].dependent_tasks, cur);
            proof {
                assert forall|x: int| 0 <= x < self.n() implies (#[trigger] self.tasks@[x]).wf(
                    self.n(),
                ) && self.tasks@[x].id == x by {
                    assert(dep_post.tasks@[x].wf(dep_post.n()));
                    if x == t as int {
                        assert forall|i: int|
                            0 <= i < self.tasks@[x].state.slots@.len() implies (
                        #[trigger] self.tasks@[x].state.slots@[i]).wf(self.n()) by {
                            assert(dep_post.tasks@[x].state.slots@[i].wf(dep_post.n()));
                        }
                    }
                }
                assert forall|x: int| 0 <= x < self.n() implies self.activity_ok(x) by {
                    assert(dep_post.activity_ok(x));
                }
                assert forall|x: int, k: int|
                    0 <= x < self.n() && 0 <= k
                        < self.tasks@[x].execution.dependencies@.len() implies self.vc_ok(
                    #[trigger] self.tasks@[x].execution.dependencies@[k],
                ) by {
                    assert(dep_post.vc_ok(dep_post.tasks@[x].execution.dependencies@[k]));
                }
                assert forall|x: int|
                    0 <= x < self.n() implies ((
                #[trigger] self.tasks@[x].state.output.content) matches OutputContent::Link(lvc)
                    ==> self.vc_ok(lvc)) by {
                    assert((dep_post.tasks@[x].state.output.content matches OutputContent::Link(
                        lvc,
                    ) ==> dep_post.vc_ok(lvc)));
                }
                assert forall|k: int| 0 <= k < self.captured@.len() implies self.vc_ok(
                    #[trigger] self.captured@[k],
                ) by {
                    assert(dep_post.vc_ok(dep_post.captured@[k]));
                }
            }
            let content = self.tasks[t].state.slots[index].content;
            Ok(content)
        } else {
            Err(listen(&self.tasks[t].state.event))
        }
    }

    /// Observer access to a task's result: the committed content when the
    /// task is `Done`, otherwise a listener registered before returning, so a
    /// completion between the check and the wait cannot be missed. Does not
    /// record a dependency.
    pub fn get_or_wait_output(&self, t: TaskId) -> (r: Result<
        OutputContent,
        event_listener::EventListener,
    >)
        requires
            t < self.n(),
        ensures
            (r is Ok) == (self.phase_of(t as int) == TaskPhase::Done),
            r matches Ok(c) ==> c == self.tasks@[t as int].state.output.content,
    {
        match self.tasks[t].state.phase {
            TaskPhase::Done => Ok(self.tasks[t].state.output.content.duplicate()),
            _ => Err(listen(&self.tasks[t].state.event)),
        }
    }
}

/// The whole effect of invalidating every reader of slot `index` of task
/// `owner` (the owner itself is never swept): every task moves within
/// `sweep_task_frame`, every output content and every other slot content is
/// unchanged, and the ready queue only grows.
pub open spec fn slot_sweep_frame(pre: Engine, post: Engine, owner: int, index: int) -> bool {
    &&& post.n() == pre.n()
    &&& forall|x: int|
        0 <= x < pre.n() ==> sweep_task_frame(pre.tasks@[x], #[trigger] post.tasks@[x])
    &&& forall|x: int|
        0 <= x < pre.n() ==> (#[trigger] post.tasks@[x]).state.output.content
            == pre.tasks@[x].state.output.content
    &&& forall|x: int, i: int|
        0 <= x < pre.n() && 0 <= i < pre.tasks@[x].state.slots@.len() && !(x == owner && i
            == index) ==> (#[trigger] post.tasks@[x].state.slots@[i]).content
            == pre.tasks@[x].state.slots@[i].content
    &&& post.phase_of(owner) == pre.phase_of(owner)
    &&& post.tasks@[owner].execution.dependencies@ == pre.tasks@[owner].execution.dependencies@
    &&& pre.scheduled@.is_prefix_of(post.scheduled@)
    &&& post.deferred_activations == pre.deferred_activations
    &&& post.deferred_deactivations == pre.deferred_deactivations
    &&& post.deferred_removals == pre.deferred_removals
    &&& post.current_task == pre.current_task
    &&& post.captured == pre.captured
    &&& post.current_prev == pre.current_prev
}

impl Engine {
    /// Invalidates every reader recorded on slot `index` of task `owner`,
    /// except the owner itself.
    fn invalidate_slot_readers(&mut self, owner: TaskId, index: usize)
        requires
            old(self).wf(),
            owner < old(self).n(),
            index < old(self).tasks@[owner as int].state.slots@.len(),
        ensures
            final(self).wf(),
            slot_sweep_frame(*old(self), *final(self), owner as int, index as int),
            forall|d: TaskId|
                old(self).tasks@[owner as int].state.slots@[index as
                    int].dependent_tasks@.contains(d) && d != owner ==> reader_invalidated(
                    *old(self),
                    *final(self),
                    d as int,
                ),
            final(self).tasks@[owner as int].state.slots@[index as int].content == old(self).tasks@[owner as int].state.slots@[index as int].content,
    {
        let ghost pre0 = *old(self);
        let readers = clone_ids(&self.tasks[owner].state.slots[index].dependent_tasks);
        proof {
            lemma_prefix_refl(pre0.scheduled@);
            assert(pre0.tasks@[owner as int].state.slots@[index as int].wf(pre0.n()));
        }
        let m = readers.len();
        let mut i: usize = 0;
        while i < m
            invariant
                self.wf(),
                owner < self.n(),
                index < pre0.tasks@[owner as int].state.slots@.len(),
                m == readers@.len(),
                i <= m,
                readers@ == pre0.tasks@[owner as int].state.slots@[index as
                    int].dependent_tasks@,
                crate::sets::no_dup(readers@),
                forall|k: int| 0 <= k < readers@.len() ==> (#[trigger] readers@[k]) < self.n(),
                slot_sweep_frame(pre0, *self, owner as int, index as int),
                self.tasks@[owner as int].state.slots@[index as int].content == pre0.tasks@[owner
                    as int].state.slots@[index as int].content,
                forall|j: int|
                    0 <= j < i && readers@[j] != owner ==> reader_invalidated(
                        pre0,
                        *self,
                        #[trigger] readers@[j] as int,
                    ),
                forall|j: int|
                    i <= j < readers@.len() ==> self.phase_of(#[trigger] readers@[j] as int)
                        == pre0.phase_of(readers@[j] as int),
            decreases m - i,
        {
            let ghost iter_pre = *self;
            let d = readers[i];
            if d != owner {
                self.make_dirty(d);
                proof {
                    let post = *self;
                    if !(iter_pre.tasks@[d as int].call matches CallType::Once) {
                        assert(dirtied(iter_pre, post, d as int));
                        if crate::task::invalidation_schedules(
                            pre0.phase_of(d as int),
                            pre0.active_of(d as int),
                        ) {
                            assert(post.scheduled@.last() == d);
                            assert(post.scheduled@.contains(d));
                        }
                        lemma_push_prefix(iter_pre.scheduled@, d);
                    } else {
                        lemma_prefix_refl(iter_pre.scheduled@);
                    }
                    lemma_prefix_trans(pre0.scheduled@, iter_pre.scheduled@, self.scheduled@);
                    assert forall|x: int|
                        0 <= x < pre0.n() implies sweep_task_frame(
                        pre0.tasks@[x],
                        #[trigger] post.tasks@[x],
                    ) by {
                        assert(sweep_task_frame(pre0.tasks@[x], iter_pre.tasks@[x]));
                    }
                    assert forall|x: int|
                        0 <= x < pre0.n() implies (#[trigger] post.tasks@[x]).state.output.content
                        == pre0.tasks@[x].state.output.content by {
                        assert(iter_pre.tasks@[x].state.output.content
                            == pre0.tasks@[x].state.output.content);
                    }
                    assert forall|x: int, si: int|
                        0 <= x < pre0.n() && 0 <= si < pre0.tasks@[x].state.slots@.len() && !(x
                            == owner as int && si == index as int) implies (
                    #[trigger] post.tasks@[x].state.slots@[si]).content
                        == pre0.tasks@[x].state.slots@[si].content by {
                        assert(iter_pre.tasks@[x].state.slots@[si].content
                            == pre0.tasks@[x].state.slots@[si].content);
                    }
                    assert(post.tasks@[owner as int].state.slots@[index as int].content
                        == iter_pre.tasks@[owner as int].state.slots@[index as int].content) by {
                        if !(iter_pre.tasks@[d as int].call matches CallType::Once) {
                            assert(only_reader_removed(
                                iter_pre.tasks@[owner as int],
                                post.tasks@[owner as int],
                                d,
                            ) || owner as int == d as int);
                        }
                    }
                    assert forall|j: int|
                        i < j < readers@.len() implies post.phase_of(#[trigger] readers@[j] as int)
                        == pre0.phase_of(readers@[j] as int) by {
                        assert(readers@[j] != readers@[i as int]);
                        assert(only_reader_removed(
                            iter_pre.tasks@[readers@[j] as int],
                            post.tasks@[readers@[j] as int],
                            d,
                        ) || iter_pre.tasks@[d as int].call matches CallType::Once);
                    }
                    assert forall|j: int|
                        0 <= j < i + 1 && readers@[j] != owner implies reader_invalidated(
                        pre0,
                        post,
                        #[trigger] readers@[j] as int,
                    ) by {
                        if j < i {
                            assert(reader_invalidated(pre0, iter_pre, readers@[j] as int));
                            if !(pre0.tasks@[readers@[j] as int].call matches CallType::Once)
                                && crate::task::invalidation_schedules(
                                pre0.phase_of(readers@[j] as int),
                                pre0.active_of(readers@[j] as int),
                            ) {
                                lemma_prefix_contains(
                                    iter_pre.scheduled@,
                                    post.scheduled@,
                                    readers@[j],
                                );
                            }
                        }
                    }
                }
            }
            i += 1;
        }
    }

    /// Stores `content` into slot `index` of task `owner` and invalidates
    /// every reader of that slot (the owner itself excepted).
    pub fn update_task_slot(&mut self, owner: TaskId, index: usize, content: SlotContent)
        requires
            old(self).wf(),
            owner < old(self).n(),
            index < old(self).tasks@[owner as int].state.slots@.len(),
        ensures
            final(self).wf(),
            final(self).tasks@[owner as int].state.slots@[index as int].content == content,
            slot_sweep_frame(*old(self), *final(self), owner as int, index as int),
            forall|d: TaskId|
                old(self).tasks@[owner as int].state.slots@[index as
                    int].dependent_tasks@.contains(d) && d != owner ==> reader_invalidated(
                    *old(self),
                    *final(self),
                    d as int,
                ),
    {
        let ghost pre0 = *old(self);
        self.tasks[owner].state.slots[index].content = content;
        let ghost mid = *self;
        proof {
            assert forall|x: int| 0 <= x < self.n() implies (#[trigger] self.tasks@[x]).wf(
                self.n(),
            ) && self.tasks@[x].id == x by {
                assert(pre0.tasks@[x].wf(pre0.n()));
                if x == owner as int {
                    assert forall|i: int|
                        0 <= i < self.tasks@[x].state.slots@.len() implies (
                    #[trigger] self.tasks@[x].state.slots@[i]).wf(self.n()) by {
                        assert(pre0.tasks@[x].state.slots@[i].wf(pre0.n()));
                    }
                }
            }
            assert forall|x: int| 0 <= x < self.n() implies self.activity_ok(x) by {
                assert(pre0.activity_ok(x));
            }
            assert forall|x: int, k: int|
                0 <= x < self.n() && 0 <= k
                    < self.tasks@[x].execution.dependencies@.len() implies self.vc_ok(
                #[trigger] self.tasks@[x].execution.dependencies@[k],
            ) by {
                assert(pre0.vc_ok(pre0.tasks@[x].execution.dependencies@[k]));
            }
            assert forall|x: int|
                0 <= x < self.n() implies ((#[trigger] self.tasks@[x].state.output.content) matches
            OutputContent::Link(lvc) ==> self.vc_ok(lvc)) by {
                assert((pre0.tasks@[x].state.output.content matches OutputContent::Link(lvc)
                    ==> pre0.vc_ok(lvc)));
            }
            if pre0.current_task is Some {
                let c = pre0.current_task->0;
                assert(self.tasks@[c as int].state.slots@.len() == pre0.tasks@[c as
                    int].state.slots@.len());
            }
        }
        self.invalidate_slot_readers(owner, index);
        proof {
            assert forall|x: int|
                0 <= x < pre0.n() implies sweep_task_frame(
                pre0.tasks@[x],
                #[trigger] self.tasks@[x],
            ) by {
                assert(sweep_task_frame(mid.tasks@[x], self.tasks@[x]));
                if x == owner as int {
                    assert forall|i: int, y: TaskId|
                        0 <= i < pre0.tasks@[x].state.slots@.len() && (
                        #[trigger] self.tasks@[x].state.slots@[i].dependent_tasks@.contains(
                            y,
                        )) implies pre0.tasks@[x].state.slots@[i].dependent_tasks@.contains(y) by {
                        assert(mid.tasks@[x].state.slots@[i].dependent_tasks@
                            == pre0.tasks@[x].state.slots@[i].dependent_tasks@);
                    }
                }
            }
            assert forall|d: TaskId|
                pre0.tasks@[owner as int].state.slots@[index as int].dependent_tasks@.contains(d)
                    && d != owner implies reader_invalidated(pre0, *self, d as int) by {
                assert(d < pre0.n()) by {
                    assert(pre0.tasks@[owner as int].state.slots@[index as int].wf(pre0.n()));
                    let j = choose|j: int|
                        0 <= j < pre0.tasks@[owner as int].state.slots@[index as
                            int].dependent_tasks@.len() && pre0.tasks@[owner as
                            int].state.slots@[index as int].dependent_tasks@[j] == d;
                }
                assert(reader_invalidated(mid, *self, d as int));
                assert(mid.phase_of(d as int) == pre0.phase_of(d as int));
                assert(mid.active_of(d as int) == pre0.active_of(d as int));
                assert(mid.tasks@[d as int].call == pre0.tasks@[d as int].call);
            }
        }
    }

    /// Reads the current task's slot `index` without recording a dependency:
    /// a task's own cells are not dependencies of itself.
    pub fn read_current_task_slot(&self, index: usize) -> (r: SlotContent)
        requires
            self.wf(),
            self.current_task is Some,
            index < self.tasks@[self.current_task->0 as int].state.slots@.len(),
        ensures
            r == self.tasks@[self.current_task->0 as int].state.slots@[index as int].content,
    {
        let cur = match self.current_task {
            Some(c) => c,
            None => {
                proof {
                    assert(false);
                }
                0
            },
        };
        self.tasks[cur].state.slots[index].content
    }
}

/// Frame of a read: tasks keep their phase, contents, counters and structure;
/// only dependency records and reader back-edges may be added, and only the
/// captured set of the context changes.
pub open spec fn read_frame(pre: Engine, post: Engine) -> bool {
    &&& post.n() == pre.n()
    &&& post.current_task == pre.current_task
    &&& forall|x: int|
        0 <= x < pre.n() ==> (#[trigger] post.tasks@[x]).state.phase == pre.tasks@[x].state.phase
            && post.tasks@[x].state.output.content == pre.tasks@[x].state.output.content
            && post.tasks@[x].state.slots@.len() == pre.tasks@[x].state.slots@.len()
            && post.tasks@[x].state.active == pre.tasks@[x].state.active
            && post.tasks@[x].active_parents == pre.tasks@[x].active_parents
            && post.tasks@[x].state.executions == pre.tasks@[x].state.executions
            && post.tasks@[x].state.children == pre.tasks@[x].state.children
            && post.tasks@[x].call == pre.tasks@[x].call
            && post.tasks@[x].inputs == pre.tasks@[x].inputs
    &&& forall|x: int, i: int|
        0 <= x < pre.n() && 0 <= i < pre.tasks@[x].state.slots@.len() ==> (
        #[trigger] post.tasks@[x].state.slots@[i]).content == pre.tasks@[x].state.slots@[i].content
    &&& post.scheduled == pre.scheduled
    &&& post.deferred_activations == pre.deferred_activations
    &&& post.deferred_deactivations == pre.deferred_deactivations
    &&& post.deferred_removals == pre.deferred_removals
    &&& post.current_prev == pre.current_prev
}

/// Read frames compose.
pub proof fn lemma_read_frame_trans(a: Engine, b: Engine, c: Engine)
    requires
        read_frame(a, b),
        read_frame(b, c),
    ensures
        read_frame(a, c),
{
    assert forall|x: int|
        0 <= x < a.n() implies (#[trigger] c.tasks@[x]).state.phase == a.tasks@[x].state.phase
            && c.tasks@[x].state.output.content == a.tasks@[x].state.output.content
            && c.tasks@[x].state.slots@.len() == a.tasks@[x].state.slots@.len()
            && c.tasks@[x].state.active == a.tasks@[x].state.active && c.tasks@[x].active_parents
            == a.tasks@[x].active_parents && c.tasks@[x].state.executions
            == a.tasks@[x].state.executions && c.tasks@[x].state.children
            == a.tasks@[x].state.children && c.tasks@[x].call == a.tasks@[x].call
            && c.tasks@[x].inputs == a.tasks@[x].inputs by {
        assert(b.tasks@[x].state.phase == a.tasks@[x].state.phase);
    }
    assert forall|x: int, i: int|
        0 <= x < a.n() && 0 <= i < a.tasks@[x].state.slots@.len() implies (
    #[trigger] c.tasks@[x].state.slots@[i]).content == a.tasks@[x].state.slots@[i].content by {
        assert(b.tasks@[x].state.slots@[i].content == a.tasks@[x].state.slots@[i].content);
        assert(b.tasks@[x].state.slots@.len() == a.tasks@[x].state.slots@.len());
    }
}

/// A token that can invalidate one task based on external events.
#[derive(Clone, Copy, PartialEq, Eq, Structural, Debug)]
pub struct Invalidator {
    pub task: TaskId,
}

impl Invalidator {
    /// Invalidates the task the token was taken for; an active task is
    /// scheduled for re-execution.
    pub fn invalidate(&self, e: &mut Engine)
        requires
            old(e).wf(),
            self.task < old(e).n(),
        ensures
            final(e).wf(),
            old(e).tasks@[self.task as int].call matches CallType::Once ==> *final(e) == *old(e),
            !(old(e).tasks@[self.task as int].call matches CallType::Once) ==> dirtied(
                *old(e),
                *final(e),
                self.task as int,
            ),
    {
        e.make_dirty(self.task)
    }
}

/// Task well-formedness only constrains ids from below, so it is preserved
/// when the arena grows.
proof fn lemma_task_wf_grow(task: Task, n1: nat, n2: nat)
    requires
        task.wf(n1),
        n1 <= n2,
    ensures
        task.wf(n2),
{
    assert forall|k: int| 0 <= k < task.state.slots@.len() implies (
    #[trigger] task.state.slots@[k]).wf(n2) by {
        assert(task.state.slots@[k].wf(n1));
    }
    assert forall|k: int|
        0 <= k < task.execution.dependencies@.len() implies crate::task::vc_in_arena(
        #[trigger] task.execution.dependencies@[k],
        n2,
    ) by {
        assert(crate::task::vc_in_arena(task.execution.dependencies@[k], n1));
    }
}

} // verus!
