//! Introspection accessors: call-type classification and reference listings
//! used for visualization and diagnostics, not for correctness.

use vstd::prelude::*;

use crate::ids::FunctionId;
use crate::ids::TaskId;
use crate::ids::TaskInput;
use crate::ids::TraitTypeId;

verus! {

/// A task's call type as reported to diagnostics, with the task's own id for
/// the unique root and once tasks.
pub enum TaskType {
    Root(TaskId),
    Once(TaskId),
    Native(FunctionId),
    ResolveNative(FunctionId),
    ResolveTrait(TraitTypeId, String),
}

/// How a reported reference relates the task to another task.
#[derive(Clone, Copy, PartialEq, Eq, Structural, Debug)]
pub enum ReferenceType {
    /// An ownership edge created by the last execution.
    Child,
    /// A value read by the last execution.
    Dependency,
    /// An argument referencing another task.
    Input,
}

/// The task ids referenced by an argument list, in order, literals skipped.
pub open spec fn input_task_ids(inputs: Seq<TaskInput>) -> Seq<TaskId>
    decreases inputs.len(),
{
    if inputs.len() == 0 {
        Seq::empty()
    } else {
        input_task_ids(inputs.drop_last()) + (match inputs.last().task_id() {
            Some(t) => seq![t],
            None => Seq::empty(),
        })
    }
}

} // verus!
