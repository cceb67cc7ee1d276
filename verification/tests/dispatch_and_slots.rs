use turbo_tasks::dispatch::plan_execution;
use turbo_tasks::dispatch::ExecutionPlan;
use turbo_tasks::engine::Engine;
use turbo_tasks::ids::RawVc;
use turbo_tasks::ids::TaskInput;
use turbo_tasks::registry::Registry;
use turbo_tasks::registry::TraitMethod;
use turbo_tasks::registry::TraitResolveError;
use turbo_tasks::registry::ValueType;
use turbo_tasks::slot_ref::find_slot_by_key;
use turbo_tasks::slot_ref::find_slot_by_type;
use turbo_tasks::slots::OutputContent;
use turbo_tasks::slots::SlotContent;
use turbo_tasks::task::state_string;
use turbo_tasks::task::CallType;
use turbo_tasks::task::TaskPhase;

#[test]
fn slot_identity_is_stable_across_re_executions() {
    let mut e = Engine::new();
    let root = e.new_root();
    let t = e.new_native(Vec::new(), 0);
    e.connect_child(root, t);
    while e.pop_scheduled().is_some() {}

    // First execution: one keyed and two positional requests.
    assert!(e.execution_started(t));
    e.set_current(t);
    let keyed = find_slot_by_key(&mut e, 5, 99);
    let first = find_slot_by_type(&mut e, 5);
    let second = find_slot_by_type(&mut e, 5);
    assert_ne!(first.index, second.index);
    e.execution_result(t, Ok(RawVc::from(keyed)));
    e.execution_completed(t);

    // Re-execution with unchanged requests yields identical slot indices.
    e.invalidate(t);
    while e.pop_scheduled().is_some() {}
    assert!(e.execution_started(t));
    e.set_current(t);
    let keyed2 = find_slot_by_key(&mut e, 5, 99);
    let first2 = find_slot_by_type(&mut e, 5);
    let second2 = find_slot_by_type(&mut e, 5);
    assert_eq!(keyed2.index, keyed.index);
    assert_eq!(first2.index, first.index);
    assert_eq!(second2.index, second.index);
    // No new slots were allocated by the replay.
    assert_eq!(e.tasks[t].state.slots.len(), 3);
    e.execution_result(t, Ok(RawVc::from(keyed2)));
    e.execution_completed(t);
}

#[test]
fn distinct_keys_and_types_get_distinct_slots() {
    let mut e = Engine::new();
    let root = e.new_root();
    let t = e.new_native(Vec::new(), 0);
    e.connect_child(root, t);
    while e.pop_scheduled().is_some() {}
    assert!(e.execution_started(t));
    e.set_current(t);
    let a = find_slot_by_key(&mut e, 5, 1);
    let b = find_slot_by_key(&mut e, 5, 2);
    let c = find_slot_by_key(&mut e, 6, 1);
    let d = find_slot_by_type(&mut e, 5);
    assert_ne!(a.index, b.index);
    assert_ne!(a.index, c.index);
    assert_ne!(a.index, d.index);
    // The same key resolves to the same slot within one execution too.
    let a_again = find_slot_by_key(&mut e, 5, 1);
    assert_eq!(a_again.index, a.index);
    e.execution_result(t, Ok(RawVc::from(a)));
    e.execution_completed(t);
}

#[test]
fn compare_and_update_skips_equal_content() {
    let mut e = Engine::new();
    let root = e.new_root();
    let b = e.new_native(Vec::new(), 0);
    let a = e.new_native(Vec::new(), 1);
    e.connect_child(root, b);
    e.connect_child(root, a);
    while e.pop_scheduled().is_some() {}

    // b stores a value.
    assert!(e.execution_started(b));
    e.set_current(b);
    let slot = find_slot_by_type(&mut e, 7);
    slot.update_shared(&mut e, 10);
    e.execution_result(b, Ok(RawVc::from(slot)));
    e.execution_completed(b);

    // a reads b's slot, becoming its dependent.
    assert!(e.execution_started(a));
    e.set_current(a);
    assert!(matches!(e.read_slot(b, slot.index), Ok(SlotContent::Shared(7, 10))));
    e.execution_result(a, Ok(RawVc::TaskSlot(b, slot.index)));
    e.execution_completed(a);
    assert_eq!(e.tasks[a].state.phase, TaskPhase::Done);

    // An equal write through compare-and-update changes nothing.
    e.invalidate(b);
    while e.pop_scheduled().is_some() {}
    assert!(e.execution_started(b));
    e.set_current(b);
    let slot2 = find_slot_by_type(&mut e, 7);
    assert_eq!(slot2.index, slot.index);
    let a_phase_before = e.tasks[a].state.phase;
    slot2.compare_and_update_shared(&mut e, 10);
    assert_eq!(e.tasks[a].state.phase, a_phase_before, "equal content: no slot invalidation");

    // A different value updates the slot and dirties the reader.
    slot2.compare_and_update_shared(&mut e, 11);
    assert!(matches!(e.tasks[b].state.slots[slot.index].content, SlotContent::Shared(7, 11)));
    e.execution_result(b, Ok(RawVc::from(slot2)));
    e.execution_completed(b);
}

fn demo_registry() -> (Registry, usize, usize, usize, usize) {
    let mut reg = Registry::new();
    let impl_fn = reg.add_function(String::from("content"));
    let trait_a = reg.add_trait(String::from("trait_a"));
    let trait_b = reg.add_trait(String::from("trait_b"));
    let trait_c = reg.add_trait(String::from("trait_c"));
    let ty = reg.add_value_type(ValueType {
        name: String::from("my_value"),
        traits: vec![trait_a, trait_b],
        methods: vec![TraitMethod {
            trait_type: trait_a,
            name: String::from("content"),
            native_fn: impl_fn,
        }],
    });
    (reg, impl_fn, trait_b, trait_c, ty)
}

/// Prepares an engine with a value-producing task `b` (done, output linked to
/// a slot holding a value of type `ty`) and returns it.
fn engine_with_value(ty: usize) -> (Engine, usize, usize) {
    let mut e = Engine::new();
    let root = e.new_root();
    let b = e.new_native(Vec::new(), 0);
    e.connect_child(root, b);
    while e.pop_scheduled().is_some() {}
    assert!(e.execution_started(b));
    e.set_current(b);
    let slot = find_slot_by_type(&mut e, ty);
    slot.update_shared(&mut e, 1);
    e.execution_result(b, Ok(RawVc::from(slot)));
    e.execution_completed(b);
    (e, root, b)
}

#[test]
fn trait_resolution_failure_names_type_trait_and_implemented_traits() {
    let (reg, _impl_fn, _trait_b, trait_c, ty) = demo_registry();
    let (mut e, root, b) = engine_with_value(ty);
    let rt = e.new_resolve_trait(
        trait_c,
        String::from("content"),
        vec![TaskInput::Vc(RawVc::TaskOutput(b))],
    );
    e.connect_child(root, rt);
    while e.pop_scheduled().is_some() {}
    assert!(e.execution_started(rt));
    e.set_current(rt);
    let plan = plan_execution(&mut e, &reg, rt);
    let err = match plan {
        ExecutionPlan::FailTrait(err) => err,
        _ => panic!("expected a trait resolution failure"),
    };
    match &err {
        TraitResolveError::TraitNotImplemented { value_type, trait_name, implemented } => {
            assert_eq!(value_type, "my_value");
            assert_eq!(trait_name, "trait_c");
            assert_eq!(implemented, &vec![String::from("trait_a"), String::from("trait_b")]);
        }
        _ => panic!("expected the trait-not-implemented case"),
    }
    assert_eq!(
        err.message(),
        "my_value doesn't implement trait trait_c (only trait_a trait_b)"
    );
    // The failure is an ordinary outcome, captured in the output.
    e.execution_result(rt, Err(err.message()));
    e.execution_completed(rt);
    assert!(matches!(
        e.tasks[rt].state.output.content,
        OutputContent::Failure(_)
    ));
}

#[test]
fn missing_method_is_distinguished_from_missing_trait() {
    let (reg, _impl_fn, trait_b, _trait_c, ty) = demo_registry();
    let (mut e, root, b) = engine_with_value(ty);
    let rt = e.new_resolve_trait(
        trait_b,
        String::from("content"),
        vec![TaskInput::Vc(RawVc::TaskOutput(b))],
    );
    e.connect_child(root, rt);
    while e.pop_scheduled().is_some() {}
    assert!(e.execution_started(rt));
    e.set_current(rt);
    let plan = plan_execution(&mut e, &reg, rt);
    let err = match plan {
        ExecutionPlan::FailTrait(err) => err,
        _ => panic!("expected a trait resolution failure"),
    };
    assert_eq!(
        err.message(),
        "my_value implements trait trait_b, but method content is missing"
    );
}

#[test]
fn trait_resolution_success_dispatches_to_the_bound_function() {
    let (reg, impl_fn, _trait_b, _trait_c, ty) = demo_registry();
    let (mut e, root, b) = engine_with_value(ty);
    let rt = e.new_resolve_trait(
        0, // trait_a
        String::from("content"),
        vec![TaskInput::Vc(RawVc::TaskOutput(b)), TaskInput::Literal(42)],
    );
    e.connect_child(root, rt);
    while e.pop_scheduled().is_some() {}
    assert!(e.execution_started(rt));
    e.set_current(rt);
    let plan = plan_execution(&mut e, &reg, rt);
    match plan {
        ExecutionPlan::DynamicCall(f, args) => {
            assert_eq!(f, impl_fn);
            assert_eq!(args.len(), 2);
            assert!(matches!(args[0], TaskInput::Vc(RawVc::TaskSlot(owner, 0)) if owner == b));
            assert!(matches!(args[1], TaskInput::Literal(42)));
        }
        _ => panic!("expected a dynamic dispatch"),
    }
}

#[test]
fn resolve_native_resolves_arguments_to_slots() {
    let (reg, _impl_fn, _trait_b, _trait_c, ty) = demo_registry();
    let (mut e, root, b) = engine_with_value(ty);
    let rn = e.new_resolve_native(
        vec![TaskInput::Literal(7), TaskInput::Vc(RawVc::TaskOutput(b))],
        0,
    );
    e.connect_child(root, rn);
    while e.pop_scheduled().is_some() {}
    assert!(e.execution_started(rn));
    e.set_current(rn);
    let plan = plan_execution(&mut e, &reg, rn);
    match plan {
        ExecutionPlan::Call(f, args) => {
            assert_eq!(f, 0);
            assert!(matches!(args[0], TaskInput::Literal(7)));
            assert!(matches!(args[1], TaskInput::Vc(RawVc::TaskSlot(owner, 0)) if owner == b));
        }
        _ => panic!("expected a native call"),
    }
}

#[test]
fn resolving_a_pending_dependency_waits() {
    let (reg, _impl_fn, _trait_b, _trait_c, _ty) = demo_registry();
    let mut e = Engine::new();
    let root = e.new_root();
    let pending = e.new_native(Vec::new(), 0);
    let rn = e.new_resolve_native(vec![TaskInput::Vc(RawVc::TaskOutput(pending))], 0);
    e.connect_child(root, pending);
    e.connect_child(root, rn);
    while e.pop_scheduled().is_some() {}
    assert!(e.execution_started(rn));
    e.set_current(rn);
    match plan_execution(&mut e, &reg, rn) {
        ExecutionPlan::Wait(t) => assert_eq!(t, pending),
        _ => panic!("expected to wait on the pending producer"),
    }
}

#[test]
fn resolving_a_failed_dependency_surfaces_the_failure() {
    let (reg, _impl_fn, _trait_b, _trait_c, _ty) = demo_registry();
    let mut e = Engine::new();
    let root = e.new_root();
    let failed = e.new_native(Vec::new(), 0);
    let rn = e.new_resolve_native(vec![TaskInput::Vc(RawVc::TaskOutput(failed))], 0);
    e.connect_child(root, failed);
    e.connect_child(root, rn);
    while e.pop_scheduled().is_some() {}
    assert!(e.execution_started(failed));
    e.set_current(failed);
    e.execution_result(failed, Err(String::from("boom")));
    e.execution_completed(failed);

    assert!(e.execution_started(rn));
    e.set_current(rn);
    match plan_execution(&mut e, &reg, rn) {
        ExecutionPlan::Fail(msg) => assert_eq!(msg, "boom"),
        _ => panic!("expected the failure to surface"),
    }
}

#[test]
fn run_body_call_types_need_no_resolution() {
    let reg = Registry::new();
    let mut e = Engine::new();
    let root = e.new_root();
    while e.pop_scheduled().is_some() {}
    assert!(e.execution_started(root));
    e.set_current(root);
    assert!(matches!(plan_execution(&mut e, &reg, root), ExecutionPlan::RunBody));
    e.execution_result(root, Ok(RawVc::TaskOutput(root)));
    e.execution_completed(root);
}

#[test]
fn state_strings_and_descriptions() {
    assert_eq!(state_string(TaskPhase::Done, true), "done");
    assert_eq!(state_string(TaskPhase::Dirty, false), "dirty (inactive)");
    assert_eq!(state_string(TaskPhase::Scheduled, true), "scheduled");
    assert_eq!(state_string(TaskPhase::InProgress, true), "in progress");
    assert_eq!(state_string(TaskPhase::InProgressDirty, false), "in progress (dirty) (inactive)");

    let (reg, _impl_fn, _trait_b, _trait_c, _ty) = demo_registry();
    let call = CallType::ResolveNative(0);
    assert_eq!(call.describe(&reg), "[resolve] content");
    let tcall = CallType::ResolveTrait(0, String::from("content"));
    assert_eq!(tcall.describe(&reg), "[resolve trait] content in trait trait_a");

    let mut e = Engine::new();
    let root = e.new_root();
    assert_eq!(e.tasks[root].describe(&reg), "Task(root, scheduled)");
}

#[test]
fn pending_and_stats_accessors() {
    let mut e = Engine::new();
    let root = e.new_root();
    let b = e.new_native(vec![TaskInput::Vc(RawVc::TaskOutput(root))], 3);
    assert!(e.tasks[b].is_pending());
    e.connect_child(root, b);
    while e.pop_scheduled().is_some() {}
    assert!(e.execution_started(b));
    e.set_current(b);
    let _ = e.read_output(root);
    e.execution_result(b, Ok(RawVc::TaskOutput(root)));
    e.execution_completed(b);
    assert!(!e.tasks[b].is_pending());

    let refs = e.tasks[b].get_stats_references();
    assert!(refs.contains(&(turbo_tasks::stats::ReferenceType::Dependency, root)));
    assert!(refs.contains(&(turbo_tasks::stats::ReferenceType::Input, root)));
    assert!(matches!(e.tasks[b].get_stats_type(), turbo_tasks::stats::TaskType::Native(3)));
    assert!(matches!(e.tasks[root].get_stats_type(), turbo_tasks::stats::TaskType::Root(r) if r == root));

    // reset_executions collapses repeated runs to one.
    e.invalidate(b);
    while e.pop_scheduled().is_some() {}
    assert!(e.execution_started(b));
    e.set_current(b);
    e.execution_result(b, Ok(RawVc::TaskOutput(root)));
    e.execution_completed(b);
    assert_eq!(e.tasks[b].state.executions, 2);
    e.tasks[b].reset_executions();
    assert_eq!(e.tasks[b].state.executions, 1);
}

#[test]
fn invalidator_token_invalidates_its_task() {
    let mut e = Engine::new();
    let root = e.new_root();
    let t = e.new_native(Vec::new(), 0);
    e.connect_child(root, t);
    while e.pop_scheduled().is_some() {}
    assert!(e.execution_started(t));
    e.set_current(t);
    let invalidator = e.get_invalidator();
    assert_eq!(invalidator.task, t);
    e.execution_result(t, Ok(RawVc::TaskOutput(t)));
    e.execution_completed(t);
    assert_eq!(e.tasks[t].state.phase, TaskPhase::Done);
    invalidator.invalidate(&mut e);
    assert_eq!(e.tasks[t].state.phase, TaskPhase::Scheduled);
}

#[test]
fn waiting_observers_get_a_listener_and_are_woken_on_completion() {
    let mut e = Engine::new();
    let root = e.new_root();
    let t = e.new_native(Vec::new(), 0);
    e.connect_child(root, t);
    while e.pop_scheduled().is_some() {}
    let listener = match e.get_or_wait_output(t) {
        Err(listener) => listener,
        Ok(_) => panic!("task is not done yet"),
    };
    assert!(e.execution_started(t));
    e.set_current(t);
    e.execution_result(t, Ok(RawVc::TaskOutput(root)));
    e.execution_completed(t);
    // Completion notified the listener registered before it; the wait returns.
    listener.wait();
    match e.get_or_wait_output(t) {
        Ok(OutputContent::Link(RawVc::TaskOutput(r))) => assert_eq!(r, root),
        _ => panic!("expected the committed link"),
    }
}
