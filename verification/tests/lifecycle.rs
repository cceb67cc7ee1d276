use turbo_tasks::engine::Engine;
use turbo_tasks::ids::RawVc;
use turbo_tasks::slots::OutputContent;
use turbo_tasks::slots::SlotContent;
use turbo_tasks::task::TaskPhase;

fn quiesce(e: &mut Engine) {
    assert!(e.drain_pending(10_000), "pending work should drain");
}

#[test]
fn phase_sequence_follows_table() {
    let mut e = Engine::new();
    let root = e.new_root();
    assert_eq!(e.tasks[root].state.phase, TaskPhase::Scheduled);
    let t = e.new_native(Vec::new(), 0);
    assert_eq!(e.tasks[t].state.phase, TaskPhase::Dirty);
    assert!(!e.tasks[t].state.active);

    // Activation moves a dirty task to scheduled.
    e.connect_child(root, t);
    assert_eq!(e.tasks[t].state.phase, TaskPhase::Scheduled);
    assert!(e.tasks[t].state.active);

    // Execution begins: scheduled -> in progress.
    assert!(e.execution_started(t));
    assert_eq!(e.tasks[t].state.phase, TaskPhase::InProgress);
    assert_eq!(e.tasks[t].state.executions, 1);

    // A second start is refused while running.
    assert!(!e.execution_started(t));

    // Completion: in progress -> done.
    e.set_current(t);
    e.execution_result(t, Ok(RawVc::TaskOutput(t)));
    e.execution_completed(t);
    assert_eq!(e.tasks[t].state.phase, TaskPhase::Done);

    // Invalidation of a done, active task: -> scheduled.
    e.invalidate(t);
    assert_eq!(e.tasks[t].state.phase, TaskPhase::Scheduled);
}

#[test]
fn invalidate_done_active_schedules_exactly_once() {
    let mut e = Engine::new();
    let root = e.new_root();
    let t = e.new_native(Vec::new(), 0);
    e.connect_child(root, t);
    // Drain the schedule queue, then run t to Done.
    while e.pop_scheduled().is_some() {}
    assert!(e.execution_started(t));
    e.set_current(t);
    e.execution_result(t, Ok(RawVc::TaskOutput(t)));
    e.execution_completed(t);
    assert_eq!(e.tasks[t].state.phase, TaskPhase::Done);
    assert_eq!(e.scheduled.len(), 0);

    e.invalidate(t);
    assert_eq!(e.scheduled.len(), 1, "exactly one scheduled execution");
    assert_eq!(e.tasks[t].state.phase, TaskPhase::Scheduled);

    // Idempotent: invalidating again schedules nothing more.
    e.invalidate(t);
    e.invalidate(t);
    assert_eq!(e.scheduled.len(), 1, "no duplicate scheduling");
}

#[test]
fn mid_execution_invalidation_discards_result_and_reschedules() {
    let mut e = Engine::new();
    let root = e.new_root();
    let t = e.new_native(Vec::new(), 0);
    e.connect_child(root, t);
    while e.pop_scheduled().is_some() {}

    assert!(e.execution_started(t));
    e.set_current(t);
    // Invalidated mid-run: in progress -> in progress (dirty).
    e.invalidate(t);
    assert_eq!(e.tasks[t].state.phase, TaskPhase::InProgressDirty);

    // The outcome of the doomed run is discarded.
    e.execution_result(t, Ok(RawVc::TaskOutput(root)));
    assert!(matches!(e.tasks[t].state.output.content, OutputContent::Empty));

    // Completion of the dirtied run reschedules the still-active task.
    e.execution_completed(t);
    assert_eq!(e.tasks[t].state.phase, TaskPhase::Scheduled);
    assert_eq!(e.scheduled.len(), 1);

    // The fresh execution follows and completes normally.
    assert_eq!(e.pop_scheduled(), Some(t));
    assert!(e.execution_started(t));
    e.set_current(t);
    e.execution_result(t, Ok(RawVc::TaskOutput(root)));
    e.execution_completed(t);
    assert_eq!(e.tasks[t].state.phase, TaskPhase::Done);
    assert_eq!(e.tasks[t].state.executions, 2);
}

#[test]
fn inactive_task_invalidation_turns_dirty_not_scheduled() {
    let mut e = Engine::new();
    let root = e.new_root();
    let t = e.new_native(Vec::new(), 0);
    e.connect_child(root, t);
    while e.pop_scheduled().is_some() {}
    assert!(e.execution_started(t));
    e.set_current(t);
    e.execution_result(t, Ok(RawVc::TaskOutput(t)));
    e.execution_completed(t);

    // Drop the tree: t becomes inactive.
    e.remove(root);
    quiesce(&mut e);
    assert!(!e.tasks[t].state.active);

    e.invalidate(t);
    assert_eq!(e.tasks[t].state.phase, TaskPhase::Dirty);
    assert_eq!(e.scheduled.len(), 0, "inactive tasks are not eagerly rescheduled");
}

#[test]
fn once_tasks_never_become_dirty() {
    let mut e = Engine::new();
    let t = e.new_once();
    while e.pop_scheduled().is_some() {}
    assert!(e.execution_started(t));
    e.set_current(t);
    e.execution_result(t, Ok(RawVc::TaskOutput(t)));
    e.execution_completed(t);
    assert_eq!(e.tasks[t].state.phase, TaskPhase::Done);

    e.invalidate(t);
    assert_eq!(e.tasks[t].state.phase, TaskPhase::Done);
    assert_eq!(e.scheduled.len(), 0);
}

#[test]
fn activity_flag_agrees_with_parent_count_after_drain() {
    let mut e = Engine::new();
    let root = e.new_root();
    // A small tree: root -> a -> b, root -> c.
    let a = e.new_native(Vec::new(), 0);
    let b = e.new_native(Vec::new(), 1);
    let c = e.new_native(Vec::new(), 2);
    e.connect_child(a, b);
    e.connect_child(root, a);
    e.connect_child(root, c);
    quiesce(&mut e);
    for t in 0..e.task_count() {
        assert_eq!(
            e.tasks[t].state.active,
            e.tasks[t].active_parents > 0,
            "task {} inconsistent after drain",
            t
        );
    }

    // Release the root; deactivation drains to a consistent state again.
    e.remove(root);
    quiesce(&mut e);
    for t in 0..e.task_count() {
        assert_eq!(
            e.tasks[t].state.active,
            e.tasks[t].active_parents > 0,
            "task {} inconsistent after deactivation drain",
            t
        );
    }
    assert!(!e.tasks[b].state.active);
}

#[test]
fn deep_chain_activates_past_the_direct_walk_depth() {
    let mut e = Engine::new();
    let root = e.new_root();
    // A chain with six descendant levels below its head.
    let head = e.new_native(Vec::new(), 0);
    let mut chain = vec![head];
    for i in 1..7 {
        let next = e.new_native(Vec::new(), i);
        e.connect_child(chain[chain.len() - 1], next);
        chain.push(next);
    }
    // Connecting the head under the active root walks the tree directly up
    // to the depth bound; the remaining levels go through the deferred batch.
    e.connect_child(root, head);
    assert!(e.tasks[chain[4]].state.active, "within the direct walk");
    assert!(!e.tasks[chain[5]].state.active, "beyond the direct walk, before drain");
    assert!(!e.tasks[chain[6]].state.active);
    assert!(e.tasks[chain[5]].active_parents > 0);

    quiesce(&mut e);
    for (i, t) in chain.iter().enumerate() {
        assert!(e.tasks[*t].state.active, "level {} must end active", i);
        assert_eq!(e.tasks[*t].state.phase, TaskPhase::Scheduled);
    }
}

#[test]
fn detached_children_are_deactivated_through_the_removal_batch() {
    let mut e = Engine::new();
    let root = e.new_root();
    let parent = e.new_native(Vec::new(), 0);
    let child = e.new_native(Vec::new(), 1);
    e.connect_child(root, parent);
    while e.pop_scheduled().is_some() {}
    // First run of parent invokes child.
    assert!(e.execution_started(parent));
    e.set_current(parent);
    e.connect_child(parent, child);
    assert!(e.tasks[child].state.active);
    e.execution_result(parent, Ok(RawVc::TaskOutput(child)));
    e.execution_completed(parent);

    // Re-execution detaches the former children into the removal batch.
    e.invalidate(parent);
    while e.pop_scheduled().is_some() {}
    assert!(e.execution_started(parent));
    assert_eq!(e.tasks[parent].state.children.len(), 0);
    e.set_current(parent);
    // This run does not invoke child again.
    e.execution_result(parent, Ok(RawVc::TaskOutput(parent)));
    e.execution_completed(parent);
    quiesce(&mut e);
    assert!(!e.tasks[child].state.active, "unreferenced child ends inactive");
    assert_eq!(e.tasks[child].active_parents, 0);
}

#[test]
fn reader_sees_new_value_after_dependency_invalidation() {
    let mut e = Engine::new();
    let root = e.new_root();
    let b = e.new_native(Vec::new(), 0);
    let a = e.new_native(Vec::new(), 1);
    e.connect_child(root, b);
    e.connect_child(root, a);
    while e.pop_scheduled().is_some() {}

    // b's body stores 10 in its positional slot and links its output to it.
    let b_value = std::cell::Cell::new(10u64);
    run_value_task(&mut e, b, b_value.get());
    assert_eq!(e.tasks[b].state.phase, TaskPhase::Done);

    // a's body reads b's output, doubles it, stores it in its own slot.
    run_doubling_reader(&mut e, a, b);
    assert_eq!(e.tasks[a].state.executions, 1);
    assert_eq!(slot_value(&e, a, 0), 20);

    // b is invalidated and re-executes with a different value.
    b_value.set(25);
    e.invalidate(b);
    assert_eq!(e.tasks[b].state.phase, TaskPhase::Scheduled);
    run_value_task(&mut e, b, b_value.get());

    // a was invalidated through the dependency edge and re-executes.
    assert_eq!(e.tasks[a].state.phase, TaskPhase::Scheduled);
    run_doubling_reader(&mut e, a, b);
    assert_eq!(e.tasks[a].state.executions, 2, "exactly one more execution");
    assert_eq!(slot_value(&e, a, 0), 50, "the new value is observed");
}

#[test]
fn identical_recomputed_content_still_marks_readers_dirty() {
    let mut e = Engine::new();
    let root = e.new_root();
    let b = e.new_native(Vec::new(), 0);
    let a = e.new_native(Vec::new(), 1);
    e.connect_child(root, b);
    e.connect_child(root, a);
    while e.pop_scheduled().is_some() {}

    run_value_task(&mut e, b, 10);
    run_doubling_reader(&mut e, a, b);
    assert_eq!(e.tasks[a].state.phase, TaskPhase::Done);

    // b re-executes and produces byte-for-byte identical content; the slot
    // equality suppresses the slot update, but committing b's output still
    // invalidates its readers: a is marked dirty regardless.
    e.invalidate(b);
    run_value_task(&mut e, b, 10);
    assert_eq!(
        e.tasks[a].state.phase,
        TaskPhase::Scheduled,
        "coarse invalidation: identical content still dirties readers"
    );
}

/// Runs the body of a value-producing task: stores `value` in its positional
/// slot (skipping the write when unchanged) and links the output to the slot.
fn run_value_task(e: &mut Engine, t: usize, value: u64) {
    assert!(e.execution_started(t));
    e.set_current(t);
    let slot = turbo_tasks::slot_ref::find_slot_by_type(e, 7);
    slot.compare_and_update_shared(e, value);
    e.execution_result(t, Ok(RawVc::from(slot)));
    e.execution_completed(t);
}

/// Runs the body of a reader task: resolves `src`'s output to its slot, reads
/// the value, and stores its double in an own slot linked as the output.
fn run_doubling_reader(e: &mut Engine, t: usize, src: usize) {
    assert!(e.execution_started(t));
    e.set_current(t);
    let linked = match e.read_output(src) {
        Ok(OutputContent::Link(vc)) => vc,
        other => panic!("source output should be a link, got {:?}", other.is_ok()),
    };
    let (owner, index) = match linked {
        RawVc::TaskSlot(owner, index) => (owner, index),
        RawVc::TaskOutput(_) => panic!("expected a slot link"),
    };
    let value = match e.read_slot(owner, index) {
        Ok(SlotContent::Shared(_, v)) => v,
        _ => panic!("source slot should hold a value"),
    };
    let slot = turbo_tasks::slot_ref::find_slot_by_type(e, 9);
    slot.compare_and_update_shared(e, value * 2);
    e.execution_result(t, Ok(RawVc::from(slot)));
    e.execution_completed(t);
}

fn slot_value(e: &Engine, t: usize, index: usize) -> u64 {
    match e.tasks[t].state.slots[index].content {
        SlotContent::Shared(_, v) => v,
        SlotContent::Empty => panic!("slot is empty"),
    }
}
