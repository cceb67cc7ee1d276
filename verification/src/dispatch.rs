//! Call-type dispatch: what running a task's body means. Root, once and
//! native tasks run an externally bound body; resolve tasks first turn
//! indirect references into concrete value references — reading other tasks'
//! outputs, which registers dependencies — and then issue a fresh call, or
//! fail with a descriptive trait-resolution error.

use vstd::prelude::*;

use crate::engine::lemma_read_frame_trans;
use crate::engine::read_frame;
use crate::engine::Engine;
use crate::ids::FunctionId;
use crate::ids::RawVc;
use crate::ids::TaskId;
use crate::ids::TaskInput;
use crate::ids::TraitTypeId;
use crate::registry::Registry;
use crate::registry::TraitResolveError;
use crate::slots::OutputContent;
use crate::slots::SlotContent;
use crate::task::CallType;

verus! {

/// What resolving an indirect reference produced.
pub enum ResolveOutcome {
    /// A concrete slot reference.
    Done(RawVc),
    /// The producing task has not committed a result yet; wait on it.
    Wait(TaskId),
    /// The producing task failed, or its output never settles; the message is
    /// re-surfaced to the caller.
    Failed(String),
}

/// What the coordinator must do to run a task's body.
pub enum ExecutionPlan {
    /// Run the externally bound body (root, once and plain native tasks).
    RunBody,
    /// Issue a fresh native call with fully resolved arguments.
    Call(FunctionId, Vec<TaskInput>),
    /// Dispatch to the trait method found on the receiver's dynamic type,
    /// with the resolved receiver followed by the remaining arguments.
    DynamicCall(FunctionId, Vec<TaskInput>),
    /// An argument's producing task has not finished; wait on it and retry.
    Wait(TaskId),
    /// Resolution failed; the message becomes the execution's outcome.
    Fail(String),
    /// Trait-method resolution failed; the structured error distinguishes a
    /// missing trait from a missing method and names everything involved.
    FailTrait(TraitResolveError),
}

/// The meaning of following output links from a handle, over one engine
/// state: the concrete slot the chain ends at, the pending task the chain is
/// blocked on, or a failure (a failed or empty output, or a chain longer than
/// the fuel — a link cycle).
pub enum SpecResolution {
    Slot(TaskId, usize),
    Pending(TaskId),
    Failure,
}

/// Follows output links from `vc` in engine state `e`, spending one unit of
/// `fuel` per link.
pub open spec fn spec_resolve(e: Engine, vc: RawVc, fuel: nat) -> SpecResolution
    decreases fuel,
{
    match vc {
        RawVc::TaskSlot(t, i) => SpecResolution::Slot(t, i),
        RawVc::TaskOutput(t) => {
            if e.phase_of(t as int) != crate::task::TaskPhase::Done {
                SpecResolution::Pending(t)
            } else {
                match e.tasks@[t as int].state.output.content {
                    OutputContent::Link(next) => if fuel == 0 {
                        SpecResolution::Failure
                    } else {
                        spec_resolve(e, next, (fuel - 1) as nat)
                    },
                    OutputContent::Failure(m) => SpecResolution::Failure,
                    OutputContent::Empty => SpecResolution::Failure,
                }
            }
        },
    }
}

/// Whether an argument resolves to a concrete slot (literals always do).
pub open spec fn input_resolvable(e: Engine, inp: TaskInput, fuel: nat) -> bool {
    match inp {
        TaskInput::Literal(v) => true,
        TaskInput::Vc(vc) => spec_resolve(e, vc, fuel) matches SpecResolution::Slot(t, i),
    }
}

/// The resolved form of an argument: literals pass through; a handle becomes
/// the slot its link chain ends at.
pub open spec fn resolved_input(e: Engine, inp: TaskInput, fuel: nat) -> TaskInput {
    match inp {
        TaskInput::Literal(v) => inp,
        TaskInput::Vc(vc) => match spec_resolve(e, vc, fuel) {
            SpecResolution::Slot(t, i) => TaskInput::Vc(RawVc::TaskSlot(t, i)),
            _ => inp,
        },
    }
}

/// Whether an execution-time resolution outcome agrees with the spec-level
/// meaning of the chain.
pub open spec fn outcome_follows(sr: SpecResolution, r: ResolveOutcome) -> bool {
    match sr {
        SpecResolution::Slot(t, i) => r == ResolveOutcome::Done(RawVc::TaskSlot(t, i)),
        SpecResolution::Pending(t) => r == ResolveOutcome::Wait(t),
        SpecResolution::Failure => r matches ResolveOutcome::Failed(m),
    }
}

/// Resolution meaning is stable under reads: a read changes no phase, output
/// or slot content, so following links gives the same answer before and
/// after.
pub proof fn lemma_spec_resolve_stable(a: Engine, b: Engine, vc: RawVc, fuel: nat)
    requires
        a.wf(),
        a.vc_ok(vc),
        read_frame(a, b),
    ensures
        spec_resolve(a, vc, fuel) == spec_resolve(b, vc, fuel),
    decreases fuel,
{
    match vc {
        RawVc::TaskSlot(t, i) => {
        },
        RawVc::TaskOutput(t) => {
            assert(b.phase_of(t as int) == a.phase_of(t as int));
            if a.phase_of(t as int) == crate::task::TaskPhase::Done {
                assert(b.tasks@[t as int].state.output.content == a.tasks@[t as
                    int].state.output.content);
                match a.tasks@[t as int].state.output.content {
                    OutputContent::Link(next) => {
                        if fuel > 0 {
                            assert(a.vc_ok(next));
                            lemma_spec_resolve_stable(a, b, next, (fuel - 1) as nat);
                        }
                    },
                    _ => {
                    },
                }
            }
        },
    }
}

/// The exact trait-resolution error owed for value type `ty`: the two cases
/// of spec 7, each naming the receiver's type, the trait, and — when the
/// trait itself is missing — the traits the type does implement.
pub open spec fn trait_error_exact(
    reg: Registry,
    ty: int,
    tt: TraitTypeId,
    name: Seq<char>,
    err: TraitResolveError,
) -> bool {
    if reg.spec_has_trait(ty, tt) {
        err matches TraitResolveError::MethodMissing { value_type, trait_name, method }
            && value_type@ == reg.value_types@[ty].name@ && trait_name@ == reg.traits@[tt as
            int].name@ && method@ == name
    } else {
        err matches TraitResolveError::TraitNotImplemented { value_type, trait_name, implemented }
            && value_type@ == reg.value_types@[ty].name@ && trait_name@ == reg.traits@[tt as
            int].name@ && implemented@.len() == reg.value_types@[ty].traits@.len() && (forall|
            j: int,
        |
            0 <= j < implemented@.len() ==> (#[trigger] implemented@[j])@
                == reg.traits@[reg.value_types@[ty].traits@[j] as int].name@)
    }
}

/// The plan a trait-resolve call owes, as a function of the receiver's link
/// chain: wait while the chain or the receiving cell's owner is pending, fail
/// on failed or empty values, and otherwise dispatch by the receiver's actual
/// slot type — the bound function with the resolved receiver in front and the
/// remaining arguments passed through, or the exact error for that type.
pub open spec fn trait_plan_follows(
    pre: Engine,
    reg: Registry,
    rvc: RawVc,
    tt: TraitTypeId,
    name: Seq<char>,
    inputs: Seq<TaskInput>,
    plan: ExecutionPlan,
) -> bool {
    match spec_resolve(pre, rvc, pre.n()) {
        SpecResolution::Pending(w) => plan == ExecutionPlan::Wait(w),
        SpecResolution::Failure => plan matches ExecutionPlan::Fail(m),
        SpecResolution::Slot(o, idx) => if pre.phase_of(o as int) != crate::task::TaskPhase::Done {
            plan == ExecutionPlan::Wait(o)
        } else {
            match pre.tasks@[o as int].state.slots@[idx as int].content {
                SlotContent::Empty => plan matches ExecutionPlan::Fail(m),
                SlotContent::Shared(ty, v) => if reg.spec_has_method(ty as int, tt, name) {
                    plan matches ExecutionPlan::DynamicCall(g, args) && reg.spec_binds_method(
                        ty as int,
                        tt,
                        name,
                        g,
                    ) && args@.len() == inputs.len() && args@[0] == TaskInput::Vc(
                        RawVc::TaskSlot(o, idx),
                    ) && (forall|j: int| 1 <= j < inputs.len() ==> args@[j] == inputs[j])
                } else {
                    plan matches ExecutionPlan::FailTrait(err) && trait_error_exact(
                        reg,
                        ty as int,
                        tt,
                        name,
                        err,
                    )
                },
            }
        },
    }
}

/// The extracted essence of a call type, so dispatch can release its borrow
/// of the task before resolution mutates the engine.
enum CallKind {
    Body,
    ResolveNative(FunctionId),
    ResolveTrait(TraitTypeId, String),
}

/// Resolves a handle to a concrete slot reference by following output links,
/// registering each read as a dependency of the current execution. The walk
/// is bounded by `fuel`; a chain longer than the arena (a link cycle) never
/// settles and is reported as a failure.
pub fn resolve_vc(e: &mut Engine, vc: RawVc, fuel: usize) -> (r: ResolveOutcome)
    requires
        old(e).wf(),
        old(e).vc_ok(vc),
        old(e).current_task is Some,
    ensures
        final(e).wf(),
        read_frame(*old(e), *final(e)),
        r matches ResolveOutcome::Done(s) ==> s matches RawVc::TaskSlot(st, si) && final(e).vc_ok(
            s,
        ),
        r matches ResolveOutcome::Wait(t) ==> t < final(e).n() && final(e).phase_of(t as int)
            != crate::task::TaskPhase::Done,
        outcome_follows(spec_resolve(*old(e), vc, fuel as nat), r),
    decreases fuel,
{
    let ghost pre0 = *old(e);
    match vc {
        RawVc::TaskSlot(_, _) => ResolveOutcome::Done(vc),
        RawVc::TaskOutput(t) => {
            let read = e.read_output(t);
            let ghost mid = *e;
            match read {
                Err(_) => ResolveOutcome::Wait(t),
                Ok(content) => {
                    match content {
                        OutputContent::Link(next) => {
                            if fuel == 0 {
                                ResolveOutcome::Failed(
                                    String::from_str("task output never settles to a value"),
                                )
                            } else {
                                proof {
                                    assert((pre0.tasks@[t as int].state.output.content matches
                                        OutputContent::Link(lvc) ==> pre0.vc_ok(lvc)));
                                    assert(mid.vc_ok(next)) by {
                                        assert(mid.tasks@[next.task_id() as
                                            int].state.slots@.len() == pre0.tasks@[next.task_id()
                                            as int].state.slots@.len());
                                    }
                                }
                                let r = resolve_vc(e, next, fuel - 1);
                                proof {
                                    lemma_read_frame_trans(pre0, mid, *e);
                                    lemma_spec_resolve_stable(
                                        pre0,
                                        mid,
                                        next,
                                        (fuel - 1) as nat,
                                    );
                                }
                                r
                            }
                        },
                        OutputContent::Failure(msg) => ResolveOutcome::Failed(msg),
                        OutputContent::Empty => ResolveOutcome::Failed(
                            String::from_str("task output is empty"),
                        ),
                    }
                },
            }
        },
    }
}

/// Resolves every input to a concrete reference, in order; literals pass
/// through unchanged. Stops at the first input that must wait or failed.
pub fn resolve_inputs(e: &mut Engine, inputs: &Vec<TaskInput>) -> (r: Result<
    Vec<TaskInput>,
    ResolveOutcome,
>)
    requires
        old(e).wf(),
        old(e).current_task is Some,
        forall|j: int|
            0 <= j < inputs@.len() ==> ((#[trigger] inputs@[j]) matches TaskInput::Vc(vc) ==> old(
                e,
            ).vc_ok(vc)),
    ensures
        final(e).wf(),
        read_frame(*old(e), *final(e)),
        (forall|j: int|
            0 <= j < inputs@.len() ==> input_resolvable(
                *old(e),
                #[trigger] inputs@[j],
                old(e).n(),
            )) ==> r matches Ok(args),
        r matches Ok(args) ==> args@.len() == inputs@.len() && (forall|j: int|
            0 <= j < inputs@.len() ==> (#[trigger] args@[j]) == resolved_input(
                *old(e),
                inputs@[j],
                old(e).n(),
            )),
        r matches Err(o) ==> !(o matches ResolveOutcome::Done(s)),
        forall|w: TaskId|
            r == Err::<Vec<TaskInput>, ResolveOutcome>(ResolveOutcome::Wait(w)) ==> exists|j: int|
                0 <= j < inputs@.len() && ((#[trigger] inputs@[j]) matches TaskInput::Vc(vc)
                    && spec_resolve(*old(e), vc, old(e).n()) == SpecResolution::Pending(w)),
        (r matches Err(o) && o matches ResolveOutcome::Failed(m)) ==> exists|j: int|
            0 <= j < inputs@.len() && ((#[trigger] inputs@[j]) matches TaskInput::Vc(vc)
                && (spec_resolve(*old(e), vc, old(e).n()) matches SpecResolution::Failure)),
{
    let ghost pre0 = *old(e);
    let n = inputs.len();
    let mut resolved: Vec<TaskInput> = Vec::new();
    let mut i: usize = 0;
    while i < n
        invariant
            pre0 == *old(e),
            pre0.wf(),
            e.wf(),
            e.current_task is Some,
            n == inputs@.len(),
            i <= n,
            resolved@.len() == i,
            read_frame(pre0, *e),
            forall|j: int|
                0 <= j < inputs@.len() ==> ((#[trigger] inputs@[j]) matches TaskInput::Vc(vc)
                    ==> pre0.vc_ok(vc)),
            forall|j: int|
                0 <= j < i ==> input_resolvable(pre0, #[trigger] inputs@[j], pre0.n())
                    && resolved@[j] == resolved_input(pre0, inputs@[j], pre0.n()),
        decreases n - i,
    {
        let ghost iter_pre = *e;
        let input = inputs[i];
        match input {
            TaskInput::Literal(_) => {
                resolved.push(input);
            },
            TaskInput::Vc(vc) => {
                proof {
                    assert(pre0.vc_ok(vc));
                    assert(e.vc_ok(vc)) by {
                        assert(e.tasks@[vc.task_id() as int].state.slots@.len()
                            == pre0.tasks@[vc.task_id() as int].state.slots@.len());
                    }
                }
                let fuel = e.task_count();
                proof {
                    assert(fuel == pre0.n());
                    lemma_spec_resolve_stable(pre0, iter_pre, vc, fuel as nat);
                }
                let outcome = resolve_vc(e, vc, fuel);
                proof {
                    lemma_read_frame_trans(pre0, iter_pre, *e);
                }
                proof {
                    assert(outcome_follows(spec_resolve(pre0, vc, pre0.n()), outcome));
                }
                match outcome {
                    ResolveOutcome::Done(s) => {
                        proof {
                            assert(spec_resolve(pre0, vc, pre0.n()) matches SpecResolution::Slot(
                                t2,
                                i2,
                            ));
                        }
                        resolved.push(TaskInput::Vc(s));
                    },
                    ResolveOutcome::Wait(t) => {
                        proof {
                            assert(inputs@[i as int] matches TaskInput::Vc(v2) && (spec_resolve(
                                pre0,
                                v2,
                                pre0.n(),
                            ) == SpecResolution::Pending(t)));
                        }
                        return Err(ResolveOutcome::Wait(t));
                    },
                    ResolveOutcome::Failed(msg) => {
                        proof {
                            assert(inputs@[i as int] matches TaskInput::Vc(v2) && (spec_resolve(
                                pre0,
                                v2,
                                pre0.n(),
                            ) matches SpecResolution::Failure));
                        }
                        return Err(ResolveOutcome::Failed(msg));
                    },
                }
            },
        }
        i += 1;
    }
    Ok(resolved)
}

/// Decides what running task `t`'s body means. Root, once and native tasks
/// run their externally bound body. A native resolve task resolves every
/// argument and issues the underlying call. A trait resolve task resolves its
/// first (`self`) argument to a concrete value, looks the method up on that
/// value's dynamic type, and either dispatches to the found function with the
/// remaining arguments unresolved, or fails with the error naming the type,
/// the trait, and — when the trait itself is missing — the traits the type
/// does implement. A trait call without arguments is a fatal protocol
/// violation, excluded here.
pub fn plan_execution(e: &mut Engine, reg: &Registry, t: TaskId) -> (plan: ExecutionPlan)
    requires
        old(e).wf(),
        reg.wf(),
        t < old(e).n(),
        old(e).current_task is Some,
        forall|j: int|
            0 <= j < old(e).tasks@[t as int].inputs@.len() ==> ((#[trigger] old(e).tasks@[t as
                int].inputs@[j]) matches TaskInput::Vc(vc) ==> old(e).vc_ok(vc)),
        old(e).tasks@[t as int].call matches CallType::ResolveTrait(tt, name) ==> tt
            < reg.traits@.len() && old(e).tasks@[t as int].inputs@.len() > 0,
        forall|x: int, i: int|
            0 <= x < old(e).n() && 0 <= i < old(e).tasks@[x].state.slots@.len() ==> ((
            #[trigger] old(e).tasks@[x].state.slots@[i]).content matches SlotContent::Shared(
                ty,
                v,
            ) ==> ty < reg.value_types@.len()),
    ensures
        final(e).wf(),
        read_frame(*old(e), *final(e)),
        ((old(e).tasks@[t as int].call matches CallType::Root) || (old(e).tasks@[t as
            int].call matches CallType::Once) || (old(e).tasks@[t as int].call matches
            CallType::Native(f))) ==> ((plan matches ExecutionPlan::RunBody) && *final(e) == *old(
            e,
        )),
        forall|f: FunctionId|
            #![auto]
            old(e).tasks@[t as int].call == CallType::ResolveNative(f) ==> {
                &&& ((forall|j: int|
                    0 <= j < old(e).tasks@[t as int].inputs@.len() ==> input_resolvable(
                        *old(e),
                        #[trigger] old(e).tasks@[t as int].inputs@[j],
                        old(e).n(),
                    )) ==> plan matches ExecutionPlan::Call(g, args))
                &&& (forall|g: FunctionId, args: Vec<TaskInput>|
                    #![auto]
                    plan == ExecutionPlan::Call(g, args) ==> g == f && args@.len() == old(
                        e,
                    ).tasks@[t as int].inputs@.len() && (forall|j: int|
                        0 <= j < args@.len() ==> (#[trigger] args@[j]) == resolved_input(
                            *old(e),
                            old(e).tasks@[t as int].inputs@[j],
                            old(e).n(),
                        )))
                &&& (forall|w: TaskId|
                    #![auto]
                    plan == ExecutionPlan::Wait(w) ==> exists|j: int|
                        0 <= j < old(e).tasks@[t as int].inputs@.len() && ((#[trigger] old(
                            e,
                        ).tasks@[t as int].inputs@[j]) matches TaskInput::Vc(vc) && (spec_resolve(
                            *old(e),
                            vc,
                            old(e).n(),
                        ) == SpecResolution::Pending(w))))
                &&& ((plan matches ExecutionPlan::Fail(m)) ==> exists|j: int|
                    0 <= j < old(e).tasks@[t as int].inputs@.len() && ((#[trigger] old(
                        e,
                    ).tasks@[t as int].inputs@[j]) matches TaskInput::Vc(vc) && (spec_resolve(
                        *old(e),
                        vc,
                        old(e).n(),
                    ) matches SpecResolution::Failure)))
            },
        forall|tt: TraitTypeId, name: String|
            #![auto]
            old(e).tasks@[t as int].call == CallType::ResolveTrait(tt, name) ==> {
                &&& ((old(e).tasks@[t as int].inputs@[0] matches TaskInput::Literal(v))
                    ==> plan matches ExecutionPlan::Fail(m))
                &&& (forall|rvc: RawVc|
                    #![auto]
                    old(e).tasks@[t as int].inputs@[0] == TaskInput::Vc(rvc)
                        ==> trait_plan_follows(
                        *old(e),
                        *reg,
                        rvc,
                        tt,
                        name@,
                        old(e).tasks@[t as int].inputs@,
                        plan,
                    ))
            },
{
    let ghost pre0 = *old(e);
    let kind = match &e.task(t).call {
        CallType::Root => CallKind::Body,
        CallType::Once => CallKind::Body,
        CallType::Native(_) => CallKind::Body,
        CallType::ResolveNative(f) => CallKind::ResolveNative(*f),
        CallType::ResolveTrait(tt, name) => CallKind::ResolveTrait(*tt, name.clone()),
    };
    match kind {
        CallKind::Body => ExecutionPlan::RunBody,
        CallKind::ResolveNative(native_fn) => {
            let inputs = clone_inputs(&e.task(t).inputs);
            proof {
                assert(inputs@ == pre0.tasks@[t as int].inputs@);
            }
            match resolve_inputs(e, &inputs) {
                Ok(resolved) => ExecutionPlan::Call(native_fn, resolved),
                Err(ResolveOutcome::Wait(w)) => ExecutionPlan::Wait(w),
                Err(ResolveOutcome::Failed(msg)) => ExecutionPlan::Fail(msg),
                Err(ResolveOutcome::Done(_)) => {
                    proof {
                        assert(false);
                    }
                    ExecutionPlan::RunBody
                },
            }
        },
        CallKind::ResolveTrait(trait_type, name) => {
            let inputs = clone_inputs(&e.task(t).inputs);
            proof {
                assert(inputs@ == pre0.tasks@[t as int].inputs@);
            }
            let this_input = inputs[0];
            let this_vc = match this_input {
                TaskInput::Literal(_) => {
                    return ExecutionPlan::Fail(
                        String::from_str("trait call receiver is not a value reference"),
                    );
                },
                TaskInput::Vc(vc) => vc,
            };
            let fuel = e.task_count();
            proof {
                assert(fuel == pre0.n());
            }
            let outcome = resolve_vc(e, this_vc, fuel);
            let ghost after_resolve = *e;
            let ghost sr = spec_resolve(pre0, this_vc, pre0.n());
            proof {
                assert(outcome_follows(sr, outcome));
            }
            let this_slot = match outcome {
                ResolveOutcome::Done(s) => s,
                ResolveOutcome::Wait(w) => {
                    proof {
                        assert(sr == SpecResolution::Pending(w)) by {
                            match sr {
                                SpecResolution::Slot(t2, i2) => {
                                    assert(false);
                                },
                                SpecResolution::Pending(t2) => {
                                },
                                SpecResolution::Failure => {
                                    assert(false);
                                },
                            }
                        }
                    }
                    return ExecutionPlan::Wait(w);
                },
                ResolveOutcome::Failed(msg) => {
                    proof {
                        assert(sr matches SpecResolution::Failure) by {
                            match sr {
                                SpecResolution::Slot(t2, i2) => {
                                    assert(false);
                                },
                                SpecResolution::Pending(t2) => {
                                    assert(false);
                                },
                                SpecResolution::Failure => {
                                },
                            }
                        }
                    }
                    return ExecutionPlan::Fail(msg);
                },
            };
            let (owner, index) = match this_slot {
                RawVc::TaskSlot(owner, index) => (owner, index),
                RawVc::TaskOutput(_) => {
                    proof {
                        assert(false);
                    }
                    (0, 0)
                },
            };
            proof {
                assert(sr == SpecResolution::Slot(owner, index)) by {
                    match sr {
                        SpecResolution::Slot(t2, i2) => {
                            assert(outcome == ResolveOutcome::Done(RawVc::TaskSlot(t2, i2)));
                        },
                        SpecResolution::Pending(t2) => {
                            assert(false);
                        },
                        SpecResolution::Failure => {
                            assert(false);
                        },
                    }
                }
            }
            let read = e.read_slot(owner, index);
            proof {
                lemma_read_frame_trans(pre0, after_resolve, *e);
                assert(after_resolve.phase_of(owner as int) == pre0.phase_of(owner as int));
            }
            let content = match read {
                Ok(c) => c,
                Err(_) => {
                    proof {
                        assert(pre0.phase_of(owner as int) != crate::task::TaskPhase::Done);
                    }
                    return ExecutionPlan::Wait(owner);
                },
            };
            proof {
                assert(pre0.phase_of(owner as int) == crate::task::TaskPhase::Done);
                assert(content == pre0.tasks@[owner as int].state.slots@[index as int].content);
            }
            let ty = match content {
                SlotContent::Shared(ty, _) => ty,
                SlotContent::Empty => {
                    return ExecutionPlan::Fail(
                        String::from_str("trait call receiver cell is empty"),
                    );
                },
            };
            proof {
                assert(ty < reg.value_types@.len());
            }
            match reg.resolve_trait_method(ty, trait_type, &name) {
                Ok(native_fn) => {
                    proof {
                        assert(reg.spec_binds_method(ty as int, trait_type, name@, native_fn));
                        assert(reg.spec_has_method(ty as int, trait_type, name@)) by {
                            let j = choose|j: int|
                                0 <= j < reg.value_types@[ty as int].methods@.len() && {
                                    let m = #[trigger] reg.value_types@[ty as int].methods@[j];
                                    m.trait_type == trait_type && m.name@ == name@ && m.native_fn
                                        == native_fn
                                };
                            assert(reg.value_types@[ty as int].methods@[j].trait_type
                                == trait_type);
                        }
                    }
                    let mut resolved: Vec<TaskInput> = Vec::new();
                    resolved.push(TaskInput::Vc(this_slot));
                    let n = inputs.len();
                    let mut i: usize = 1;
                    while i < n
                        invariant
                            n == inputs@.len(),
                            1 <= i <= n,
                            resolved@.len() == i,
                            resolved@[0] == TaskInput::Vc(this_slot),
                            forall|j: int| 1 <= j < i ==> #[trigger] resolved@[j] == inputs@[j],
                        decreases n - i,
                    {
                        resolved.push(inputs[i]);
                        i += 1;
                    }
                    ExecutionPlan::DynamicCall(native_fn, resolved)
                },
                Err(err) => ExecutionPlan::FailTrait(err),
            }
        },
    }
}

/// A copy of an argument list (element-wise, so the view is known equal).
fn clone_inputs(v: &Vec<TaskInput>) -> (r: Vec<TaskInput>)
    ensures
        r@ == v@,
{
    let mut r: Vec<TaskInput> = Vec::new();
    let mut i: usize = 0;
    while i < v.len()
        invariant
            i <= v@.len(),
            r@ == v@.subrange(0, i as int),
        decreases v@.len() - i,
    {
        r.push(v[i]);
        proof {
            assert(r@ =~= v@.subrange(0, i + 1));
        }
        i += 1;
    }
    proof {
        assert(r@ =~= v@);
    }
    r
}

} // verus!
