//! Memoized value cells. A `Slot` holds one intermediate value of a task's
//! execution; the `Output` is the distinguished cell holding the task's
//! return value, which may forward to another task's data or hold a captured
//! failure. Both track the tasks that read them, so a change can invalidate
//! exactly those readers.

use vstd::prelude::*;

use crate::ids::RawVc;
use crate::ids::TaskId;
use crate::ids::ValueTypeId;
use crate::sets::no_dup;

verus! {

/// Content of a slot: either nothing yet, or a shared value of some
/// registered value type.
#[derive(Clone, Copy, PartialEq, Eq, Structural, Debug)]
pub enum SlotContent {
    Empty,
    Shared(ValueTypeId, u64),
}

impl SlotContent {
    /// The stored value, if it exists and has the requested type.
    pub fn try_cast(&self, type_id: ValueTypeId) -> (r: Option<u64>)
        ensures
            r == self.cast(type_id),
    {
        match self {
            SlotContent::Empty => None,
            SlotContent::Shared(t, v) => {
                if *t == type_id {
                    Some(*v)
                } else {
                    None
                }
            },
        }
    }

    /// The stored value, if it exists and has the requested type.
    pub open spec fn cast(self, type_id: ValueTypeId) -> Option<u64> {
        match self {
            SlotContent::Empty => None,
            SlotContent::Shared(t, v) => if t == type_id {
                Some(v)
            } else {
                None
            },
        }
    }
}

/// A single memoized value cell owned by a task.
pub struct Slot {
    /// The stored content.
    pub content: SlotContent,
    /// Tasks that read this slot; they are invalidated when it changes.
    pub dependent_tasks: Vec<TaskId>,
}

impl Slot {
    /// Whether the reader set is duplicate-free and every reader id is below
    /// the given arena size.
    pub open spec fn wf(self, task_count: nat) -> bool {
        &&& no_dup(self.dependent_tasks@)
        &&& forall|k: int|
            0 <= k < self.dependent_tasks@.len() ==> (#[trigger] self.dependent_tasks@[k])
                < task_count
    }

    /// A fresh, empty slot with no readers.
    pub fn new() -> (s: Slot)
        ensures
            s.content == SlotContent::Empty,
            s.dependent_tasks@ =~= Seq::<TaskId>::empty(),
    {
        Slot { content: SlotContent::Empty, dependent_tasks: Vec::new() }
    }
}

/// Content of a task's output cell.
#[derive(Debug)]
pub enum OutputContent {
    /// No execution has committed a result yet.
    Empty,
    /// The result forwards to another task's output or slot.
    Link(RawVc),
    /// The execution failed; the message is re-surfaced to every reader.
    Failure(String),
}

impl OutputContent {
    /// An equal copy of this content.
    pub fn duplicate(&self) -> (r: OutputContent)
        ensures
            r == *self,
    {
        match self {
            OutputContent::Empty => OutputContent::Empty,
            OutputContent::Link(vc) => OutputContent::Link(*vc),
            OutputContent::Failure(msg) => OutputContent::Failure(msg.clone()),
        }
    }

}

/// The output cell of a task: its committed return value, plus the tasks that
/// read it and must be invalidated when it changes.
pub struct Output {
    /// The committed result of the last finished execution.
    pub content: OutputContent,
    /// Tasks that read this output; they are invalidated when it changes.
    pub dependent_tasks: Vec<TaskId>,
}

impl Output {
    /// Whether the reader set is duplicate-free and every reader id is below
    /// the given arena size.
    pub open spec fn wf(self, task_count: nat) -> bool {
        &&& no_dup(self.dependent_tasks@)
        &&& forall|k: int|
            0 <= k < self.dependent_tasks@.len() ==> (#[trigger] self.dependent_tasks@[k])
                < task_count
    }

    /// A fresh, empty output with no readers.
    pub fn new() -> (o: Output)
        ensures
            o.content matches OutputContent::Empty,
            o.dependent_tasks@ =~= Seq::<TaskId>::empty(),
    {
        Output { content: OutputContent::Empty, dependent_tasks: Vec::new() }
    }
}

} // verus!
