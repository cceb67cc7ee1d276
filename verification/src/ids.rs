//! Identifiers and value handles used throughout the engine.
//!
//! Tasks live in an arena and are identified by their index; equality and
//! hashing of tasks is integer comparison on the id, never on contents.

use vstd::prelude::*;

verus! {

/// Index of a task in the engine's arena.
pub type TaskId = usize;

/// Identifier of a registered native function.
pub type FunctionId = usize;

/// Identifier of a registered trait type.
pub type TraitTypeId = usize;

/// Identifier of a registered value type.
pub type ValueTypeId = usize;

/// A handle referencing either a task's output or a specific slot of a task.
/// Used both as an argument and as a dependency identity.
#[derive(Clone, Copy, PartialEq, Eq, Structural, Debug, Hash)]
pub enum RawVc {
    /// The return value cell of the given task.
    TaskOutput(TaskId),
    /// The slot with the given index inside the given task.
    TaskSlot(TaskId, usize),
}

impl RawVc {
    /// The task this handle points into.
    pub fn get_task_id(&self) -> (t: TaskId)
        ensures
            t == self.task_id(),
    {
        match self {
            RawVc::TaskOutput(t) => *t,
            RawVc::TaskSlot(t, _) => *t,
        }
    }

    /// The task this handle points into, as a spec-level accessor.
    pub open spec fn task_id(self) -> TaskId {
        match self {
            RawVc::TaskOutput(t) => t,
            RawVc::TaskSlot(t, _) => t,
        }
    }
}

/// An argument of a task: either a literal value or a reference to another
/// task's output or slot.
#[derive(Clone, Copy, PartialEq, Eq, Structural, Debug)]
pub enum TaskInput {
    /// A plain literal argument.
    Literal(u64),
    /// A reference to memoized data of another task.
    Vc(RawVc),
}

impl TaskInput {
    /// The task referenced by this input, if it references one.
    pub fn get_task_id(&self) -> (t: Option<TaskId>)
        ensures
            t == self.task_id(),
    {
        match self {
            TaskInput::Literal(_) => None,
            TaskInput::Vc(vc) => Some(vc.get_task_id()),
        }
    }

    /// The task referenced by this input, as a spec-level accessor.
    pub open spec fn task_id(self) -> Option<TaskId> {
        match self {
            TaskInput::Literal(_) => None,
            TaskInput::Vc(vc) => Some(vc.task_id()),
        }
    }
}

/// Whether a call expects its arguments to be resolved before dispatch.
pub enum TaskArgumentOptions {
    Unresolved,
    Resolved,
}

} // verus!
