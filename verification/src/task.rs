//! The task: a memoized unit of computation with identity, inputs, call type
//! and lifecycle state, plus the phase state machine governing when it runs.
//!
//! Phase transitions:
//!
//! | From            | Event                    | To                            |
//! |-----------------|--------------------------|-------------------------------|
//! | Dirty           | becomes active           | Scheduled (enqueued)          |
//! | Scheduled       | execution begins         | InProgress                    |
//! | InProgress      | execution completes      | Done                          |
//! | InProgress      | invalidated mid-run      | InProgressDirty               |
//! | InProgressDirty | execution completes      | Scheduled if active else Dirty|
//! | Done            | invalidated              | Scheduled if active else Dirty|
//! | already invalid | invalidated again        | unchanged (idempotent)        |
//!
//! Starting an execution from `Dirty`, or completing one from any phase other
//! than `InProgress`/`InProgressDirty`, is a fatal invariant violation and is
//! excluded by precondition.

use vstd::prelude::*;

use crate::ids::FunctionId;
use crate::ids::RawVc;
use crate::ids::TaskId;
use crate::ids::TaskInput;
use crate::ids::TraitTypeId;
use crate::prev_slots::PrevSlots;
use crate::registry::Registry;
use crate::sets::no_dup;
use crate::slots::Output;
use crate::slots::Slot;

verus! {

/// Lifecycle phase of a task.
#[derive(Clone, Copy, PartialEq, Eq, Structural, Debug)]
pub enum TaskPhase {
    /// Ready; the committed output is valid.
    Done,
    /// Execution is invalid, but not yet scheduled.
    Dirty,
    /// Execution is invalid and enqueued for execution.
    Scheduled,
    /// Execution is happening.
    InProgress,
    /// Execution is happening but was invalidated while running; its result
    /// will be discarded.
    InProgressDirty,
}

impl Default for TaskPhase {
    /// A task starts out invalid and unscheduled.
    fn default() -> (p: Self)
        ensures
            p == TaskPhase::Dirty,
    {
        TaskPhase::Dirty
    }
}

/// The phase after an invalidation, which depends on the activity flag.
/// Invalidating an already-invalid task changes nothing.
pub open spec fn invalidated_phase(p: TaskPhase, active: bool) -> TaskPhase {
    match p {
        TaskPhase::Done => if active {
            TaskPhase::Scheduled
        } else {
            TaskPhase::Dirty
        },
        TaskPhase::InProgress => TaskPhase::InProgressDirty,
        _ => p,
    }
}

/// Whether an invalidation in phase `p` enqueues the task for execution.
pub open spec fn invalidation_schedules(p: TaskPhase, active: bool) -> bool {
    p == TaskPhase::Done && active
}

/// The phase after an execution completes. Only meaningful from
/// `InProgress` or `InProgressDirty`.
pub open spec fn completed_phase(p: TaskPhase, active: bool) -> TaskPhase {
    match p {
        TaskPhase::InProgress => TaskPhase::Done,
        _ => if active {
            TaskPhase::Scheduled
        } else {
            TaskPhase::Dirty
        },
    }
}

/// Whether completing an execution in phase `p` re-enqueues the task.
pub open spec fn completion_schedules(p: TaskPhase, active: bool) -> bool {
    p == TaskPhase::InProgressDirty && active
}

/// The phase after the task becomes active: a dirty task is scheduled, any
/// other phase is left alone.
pub open spec fn activated_phase(p: TaskPhase) -> TaskPhase {
    if p == TaskPhase::Dirty {
        TaskPhase::Scheduled
    } else {
        p
    }
}

/// The transition table as a relation: every phase change the engine
/// performs is one of these steps (or leaves the phase alone).
pub open spec fn allowed_phase_step(from: TaskPhase, to: TaskPhase, active: bool) -> bool {
    ||| to == from
    ||| (from == TaskPhase::Dirty && to == TaskPhase::Scheduled && active)
    ||| (from == TaskPhase::Scheduled && to == TaskPhase::InProgress && active)
    ||| (from == TaskPhase::InProgress && to == TaskPhase::Done)
    ||| (from == TaskPhase::InProgress && to == TaskPhase::InProgressDirty)
    ||| (from == TaskPhase::InProgressDirty && to == TaskPhase::Scheduled && active)
    ||| (from == TaskPhase::InProgressDirty && to == TaskPhase::Dirty && !active)
    ||| (from == TaskPhase::Done && to == TaskPhase::Scheduled && active)
    ||| (from == TaskPhase::Done && to == TaskPhase::Dirty && !active)
}

/// Law: invalidation only makes steps the transition table allows.
pub proof fn lemma_invalidation_follows_table(p: TaskPhase, active: bool)
    ensures
        allowed_phase_step(p, invalidated_phase(p, active), active),
{
}

/// Law: completion only makes steps the transition table allows.
pub proof fn lemma_completion_follows_table(p: TaskPhase, active: bool)
    requires
        p == TaskPhase::InProgress || p == TaskPhase::InProgressDirty,
    ensures
        allowed_phase_step(p, completed_phase(p, active), active),
{
}

/// Law: activation only makes steps the transition table allows.
pub proof fn lemma_activation_follows_table(p: TaskPhase)
    ensures
        allowed_phase_step(p, activated_phase(p), true),
{
}

/// Law: invalidating a `Done`, active task schedules it, and moves it to
/// `Scheduled`; invalidating any task a second time never schedules again,
/// so one invalidation yields exactly one scheduled execution.
pub proof fn lemma_invalidate_schedules_once(p: TaskPhase, active: bool)
    ensures
        invalidation_schedules(TaskPhase::Done, true),
        invalidated_phase(TaskPhase::Done, true) == TaskPhase::Scheduled,
        !invalidation_schedules(invalidated_phase(p, active), active),
{
}

/// Law: completing a run that was dirtied mid-execution reschedules the task
/// exactly when it is still active; an inactive task falls back to `Dirty`
/// and is not enqueued.
pub proof fn lemma_dirty_completion_reschedules()
    ensures
        completed_phase(TaskPhase::InProgressDirty, true) == TaskPhase::Scheduled,
        completion_schedules(TaskPhase::InProgressDirty, true),
        completed_phase(TaskPhase::InProgressDirty, false) == TaskPhase::Dirty,
        !completion_schedules(TaskPhase::InProgressDirty, false),
{
}

/// The label of a phase, as shown to diagnostics.
pub open spec fn phase_label(p: TaskPhase) -> Seq<char> {
    match p {
        TaskPhase::Scheduled => "scheduled"@,
        TaskPhase::InProgress => "in progress"@,
        TaskPhase::InProgressDirty => "in progress (dirty)"@,
        TaskPhase::Done => "done"@,
        TaskPhase::Dirty => "dirty"@,
    }
}

/// Renders a task's lifecycle state for diagnostics: the phase label, with a
/// marker when the task is inactive.
pub fn state_string(phase: TaskPhase, active: bool) -> (r: String)
    ensures
        r@ == phase_label(phase) + (if active {
            Seq::<char>::empty()
        } else {
            " (inactive)"@
        }),
{
    let mut r = match phase {
        TaskPhase::Scheduled => String::from_str("scheduled"),
        TaskPhase::InProgress => String::from_str("in progress"),
        TaskPhase::InProgressDirty => String::from_str("in progress (dirty)"),
        TaskPhase::Done => String::from_str("done"),
        TaskPhase::Dirty => String::from_str("dirty"),
    };
    if !active {
        r.append(" (inactive)");
    }
    proof {
        if active {
            assert(r@ =~= phase_label(phase) + Seq::<char>::empty());
        }
    }
    r
}

/// The label of a call type as rendered for diagnostics, with registered
/// names filled in from the registry.
pub open spec fn call_label(call: CallType, reg: Registry) -> Seq<char> {
    match call {
        CallType::Root => "root"@,
        CallType::Once => "once"@,
        CallType::Native(f) => reg.functions@[f as int].name@,
        CallType::ResolveNative(f) => "[resolve] "@ + reg.functions@[f as int].name@,
        CallType::ResolveTrait(tt, name) => "[resolve trait] "@ + name@ + " in trait "@
            + reg.traits@[tt as int].name@,
    }
}

impl CallType {
    /// The call type rendered for diagnostics, with registered names filled
    /// in from the registry.
    pub fn describe(&self, reg: &Registry) -> (r: String)
        requires
            self matches CallType::Native(f) ==> f < reg.functions@.len(),
            self matches CallType::ResolveNative(f) ==> f < reg.functions@.len(),
            self matches CallType::ResolveTrait(tt, name) ==> tt < reg.traits@.len(),
        ensures
            r@ == call_label(*self, *reg),
    {
        match self {
            CallType::Root => String::from_str("root"),
            CallType::Once => String::from_str("once"),
            CallType::Native(f) => reg.functions[*f].name.clone(),
            CallType::ResolveNative(f) => {
                let mut r = String::from_str("[resolve] ");
                r.append(reg.functions[*f].name.as_str());
                r
            },
            CallType::ResolveTrait(tt, name) => {
                let mut r = String::from_str("[resolve trait] ");
                r.append(name.as_str());
                r.append(" in trait ");
                r.append(reg.traits[*tt].name.as_str());
                r
            },
        }
    }
}

/// How the task's body is obtained: fixed at creation, never changes.
#[derive(Debug)]
pub enum CallType {
    /// A root task holding an externally bound body; tracks dependencies and
    /// re-executes when they change.
    Root,
    /// A single root execution; it never becomes dirty again and runs exactly
    /// one time.
    Once,
    /// A normal execution of a registered native function.
    Native(FunctionId),
    /// Resolves every argument, then issues a fresh call to the underlying
    /// native function with resolved arguments.
    ResolveNative(FunctionId),
    /// Resolves the first (`self`) argument, looks the method up on its
    /// dynamic type, and dispatches to the found function.
    ResolveTrait(TraitTypeId, String),
}

impl CallType {
    /// Whether this is a `Once` call, which never becomes dirty.
    pub fn is_once(&self) -> (b: bool)
        ensures
            b == (self matches CallType::Once),
    {
        match self {
            CallType::Once => true,
            _ => false,
        }
    }
}

/// The mutable lifecycle state of a task, guarded in a concurrent setting by
/// the task's own lock; here owned by the engine and mutated one transition
/// at a time.
pub struct TaskState {
    /// Whether the task is transitively reachable from a root holder. It may
    /// lag behind the parent count while deferred batches are pending.
    pub active: bool,
    /// The lifecycle phase.
    pub phase: TaskPhase,
    /// Task ids the last execution invoked; replaced wholesale each
    /// execution.
    pub children: Vec<TaskId>,
    /// The return-value cell.
    pub output: Output,
    /// Growable list of memoized value cells; indices are stable for the
    /// task's lifetime.
    pub slots: Vec<Slot>,
    /// Broadcast notification for observers waiting on completion.
    pub event: event_listener::Event,
    /// How many times the task has actually run.
    pub executions: u32,
}

/// Task data touched only while the owning task's own execution is running.
pub struct TaskExecutionData {
    /// Values read during the last committed execution; invalidations of any
    /// of them dirty the reading task.
    pub dependencies: Vec<RawVc>,
    /// Mapping from key or value type to slot index, so a re-execution stores
    /// its data in the same slots again.
    pub previous_slots: PrevSlots,
}

/// A memoized unit of computation: identity, call type, arguments, parent
/// reference count, lifecycle state and execution-scoped data.
pub struct Task {
    /// Index of the task in the engine's arena; equality of tasks is
    /// equality of ids.
    pub id: TaskId,
    /// How the body is obtained; fixed at creation.
    pub call: CallType,
    /// The arguments, immutable after creation.
    pub inputs: Vec<TaskInput>,
    /// How many active tasks or external holders keep the task reachable.
    pub active_parents: u32,
    /// The lock-guarded lifecycle state.
    pub state: TaskState,
    /// Data owned by the currently committed execution.
    pub execution: TaskExecutionData,
}

impl Task {
    /// Structural well-formedness of one task inside an arena of
    /// `task_count` tasks.
    pub open spec fn wf(self, task_count: nat) -> bool {
        &&& no_dup(self.state.children@)
        &&& forall|k: int|
            0 <= k < self.state.children@.len() ==> (#[trigger] self.state.children@[k])
                < task_count
        &&& self.state.output.wf(task_count)
        &&& forall|k: int|
            0 <= k < self.state.slots@.len() ==> (#[trigger] self.state.slots@[k]).wf(task_count)
        &&& no_dup(self.execution.dependencies@)
        &&& forall|k: int|
            0 <= k < self.execution.dependencies@.len() ==> vc_in_arena(
                #[trigger] self.execution.dependencies@[k],
                task_count,
            )
        &&& self.execution.previous_slots.wf(self.state.slots@.len())
    }

    /// Whether the task has not yet committed a valid result.
    pub fn is_pending(&self) -> (b: bool)
        ensures
            b == (self.state.phase != TaskPhase::Done),
    {
        self.state.phase != TaskPhase::Done
    }


    /// The call-type classification reported to diagnostics.
    pub fn get_stats_type(&self) -> (r: crate::stats::TaskType)
        ensures
            self.call matches CallType::Root ==> r == crate::stats::TaskType::Root(self.id),
            self.call matches CallType::Once ==> r == crate::stats::TaskType::Once(self.id),
            forall|f: crate::ids::FunctionId|
                self.call == CallType::Native(f) ==> r == crate::stats::TaskType::Native(f),
            forall|f: crate::ids::FunctionId|
                self.call == CallType::ResolveNative(f) ==> r
                    == crate::stats::TaskType::ResolveNative(f),
            forall|tt: crate::ids::TraitTypeId, name: String|
                self.call == CallType::ResolveTrait(tt, name) ==> (r matches
                crate::stats::TaskType::ResolveTrait(rt, rn) && rt == tt && rn@ == name@),
    {
        match &self.call {
            CallType::Root => crate::stats::TaskType::Root(self.id),
            CallType::Once => crate::stats::TaskType::Once(self.id),
            CallType::Native(f) => crate::stats::TaskType::Native(*f),
            CallType::ResolveNative(f) => crate::stats::TaskType::ResolveNative(*f),
            CallType::ResolveTrait(tt, name) => crate::stats::TaskType::ResolveTrait(
                *tt,
                name.clone(),
            ),
        }
    }

    /// Every reference the task holds to other tasks: its owned children,
    /// its committed dependencies, and the tasks its arguments point at.
    pub fn get_stats_references(&self) -> (r: Vec<(crate::stats::ReferenceType, TaskId)>)
        ensures
            r@.len() == self.state.children@.len() + self.execution.dependencies@.len()
                + crate::stats::input_task_ids(self.inputs@).len(),
            forall|k: int|
                0 <= k < self.state.children@.len() ==> (#[trigger] r@[k]) == (
                crate::stats::ReferenceType::Child,
                self.state.children@[k],
            ),
            forall|k: int|
                0 <= k < self.execution.dependencies@.len() ==> (#[trigger] r@[k
                    + self.state.children@.len()]) == (
                crate::stats::ReferenceType::Dependency,
                self.execution.dependencies@[k].task_id(),
            ),
            forall|k: int|
                0 <= k < crate::stats::input_task_ids(self.inputs@).len() ==> (#[trigger] r@[k
                    + self.state.children@.len() + self.execution.dependencies@.len()]) == (
                crate::stats::ReferenceType::Input,
                crate::stats::input_task_ids(self.inputs@)[k],
            ),
    {
        let mut refs: Vec<(crate::stats::ReferenceType, TaskId)> = Vec::new();
        let nc = self.state.children.len();
        let mut i: usize = 0;
        while i < nc
            invariant
                nc == self.state.children@.len(),
                i <= nc,
                refs@.len() == i,
                forall|k: int|
                    0 <= k < i ==> (#[trigger] refs@[k]) == (
                    crate::stats::ReferenceType::Child,
                    self.state.children@[k],
                ),
            decreases nc - i,
        {
            refs.push((crate::stats::ReferenceType::Child, self.state.children[i]));
            i += 1;
        }
        let nd = self.execution.dependencies.len();
        let mut j: usize = 0;
        while j < nd
            invariant
                nc == self.state.children@.len(),
                nd == self.execution.dependencies@.len(),
                j <= nd,
                refs@.len() == nc + j,
                forall|k: int|
                    0 <= k < nc ==> (#[trigger] refs@[k]) == (
                    crate::stats::ReferenceType::Child,
                    self.state.children@[k],
                ),
                forall|k: int|
                    0 <= k < j ==> (#[trigger] refs@[k + nc]) == (
                    crate::stats::ReferenceType::Dependency,
                    self.execution.dependencies@[k].task_id(),
                ),
            decreases nd - j,
        {
            let dep = self.execution.dependencies[j];
            refs.push((crate::stats::ReferenceType::Dependency, dep.get_task_id()));
            j += 1;
        }
        let ni = self.inputs.len();
        let mut m: usize = 0;
        while m < ni
            invariant
                nc == self.state.children@.len(),
                nd == self.execution.dependencies@.len(),
                ni == self.inputs@.len(),
                m <= ni,
                refs@.len() == nc + nd + crate::stats::input_task_ids(
                    self.inputs@.subrange(0, m as int),
                ).len(),
                forall|k: int|
                    0 <= k < nc ==> (#[trigger] refs@[k]) == (
                    crate::stats::ReferenceType::Child,
                    self.state.children@[k],
                ),
                forall|k: int|
                    0 <= k < nd ==> (#[trigger] refs@[k + nc]) == (
                    crate::stats::ReferenceType::Dependency,
                    self.execution.dependencies@[k].task_id(),
                ),
                forall|k: int|
                    0 <= k < crate::stats::input_task_ids(
                        self.inputs@.subrange(0, m as int),
                    ).len() ==> (#[trigger] refs@[k + nc + nd]) == (
                    crate::stats::ReferenceType::Input,
                    crate::stats::input_task_ids(self.inputs@.subrange(0, m as int))[k],
                ),
            decreases ni - m,
        {
            let ghost before = self.inputs@.subrange(0, m as int);
            let input = self.inputs[m];
            match input.get_task_id() {
                Some(t) => {
                    refs.push((crate::stats::ReferenceType::Input, t));
                },
                None => {
                },
            }
            proof {
                let after = self.inputs@.subrange(0, m + 1);
                assert(after.drop_last() =~= before);
                assert(after.last() == self.inputs@[m as int]);
            }
            m += 1;
        }
        proof {
            assert(self.inputs@.subrange(0, self.inputs@.len() as int) =~= self.inputs@);
        }
        refs
    }

    /// The task rendered for diagnostics: its call and its lifecycle state.
    pub fn describe(&self, reg: &Registry) -> (r: String)
        requires
            self.call matches CallType::Native(f) ==> f < reg.functions@.len(),
            self.call matches CallType::ResolveNative(f) ==> f < reg.functions@.len(),
            self.call matches CallType::ResolveTrait(tt, name) ==> tt < reg.traits@.len(),
        ensures
            r@ == "Task("@ + call_label(self.call, *reg) + ", "@ + phase_label(self.state.phase)
                + (if self.state.active {
                Seq::<char>::empty()
            } else {
                " (inactive)"@
            }) + ")"@,
    {
        let mut r = String::from_str("Task(");
        r.append(self.call.describe(reg).as_str());
        r.append(", ");
        r.append(state_string(self.state.phase, self.state.active).as_str());
        r.append(")");
        r
    }

    /// For testing purposes: collapse the execution counter so repeated runs
    /// count as one.
    pub fn reset_executions(&mut self)
        ensures
            final(self).state.executions == if old(self).state.executions > 1 {
                1u32
            } else {
                old(self).state.executions
            },
            *final(self) == (Task {
                state: TaskState { executions: final(self).state.executions, ..old(self).state },
                ..*old(self)
            }),
    {
        if self.state.executions > 1 {
            self.state.executions = 1;
        }
    }
}

/// Whether a handle points at an existing task (and, for a slot handle, its
/// index is within that task's allocated slots is checked separately).
pub open spec fn vc_in_arena(vc: RawVc, task_count: nat) -> bool {
    vc.task_id() < task_count
}

} // verus!
