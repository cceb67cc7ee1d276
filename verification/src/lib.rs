//! Incremental computation core: a graph of memoized tasks that re-executes
//! only the subset invalidated by an external change.
//!
//! The engine owns an arena of tasks. Each task has a lifecycle phase
//! (`Done`, `Dirty`, `Scheduled`, `InProgress`, `InProgressDirty`), a
//! reference-counted activity flag, a set of owned children, an output cell,
//! and a growable list of memoized value slots whose indices stay stable
//! across re-executions.

pub mod dispatch;
pub mod engine;
pub mod events;
pub mod ids;
pub mod prev_slots;
pub mod registry;
pub mod sets;
pub mod slot_ref;
pub mod slots;
pub mod stats;
pub mod task;
