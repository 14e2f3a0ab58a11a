//! Performing a method in the partially ordered search.
use vstd::prelude::*;
use crate::datastructures::domain::{Domain, Method, MethodModel, MethodSubtask, MethodSubtaskModel, ActionModel, Precondition, PreconditionModel, clone_preconditions};
use crate::datastructures::node::{RelVars, RelVarsModel, PartialNode, PartialNodeModel, Called, CalledModel, SubtaskTypes, SubtaskTypesModel};
use crate::datastructures::problem::clone_state;
use crate::toolbox::precondition::{names_distinct, all_variables, trimmable, trimmer_result, precon_trimmer, same_names, lemma_same_names_props, lemma_trimmable_same_names};
use crate::toolbox::passing_preconditions::{subtask_params, decided_passing, deciding_possible, decide_passing_preconditions};
use crate::toolbox::update::{hand_back_possible, returned_to_caller_partial, update_vars_for_called_method_partial};
use crate::perform::{finished_applied, finish_possible, finish_applied, task_call_relvars, action_call_relvars, action_call_params, task_call_relvars_exec, action_call_exec};

verus! {

/// The relevant variables after the method's own preconditions are checked
/// at its first subtask (`None` when they are not cleared).
pub open spec fn entry_relvars(n: PartialNodeModel, m: MethodModel, rv: RelVarsModel, called: CalledModel) -> Option<RelVarsModel> {
    if called.2.last() == 0 && m.precondition is Some {
        let t = trimmer_result(rv, m.precondition.unwrap(), n.problem.objects, n.problem.state);
        if t.1 { Some(t.0) } else { None }
    } else {
        Some(rv)
    }
}

/// The passed-on preconditions together with the method's own.
pub open spec fn with_own(passing: Seq<PreconditionModel>, m: MethodModel) -> Seq<PreconditionModel> {
    passing + (if m.precondition is Some { m.precondition.unwrap() } else { Seq::empty() })
}

/// The node in which the method moves on to its subtask `idx`: the queue
/// entry becomes the subtask with its relevant variables, the call stack
/// with the method on top and the preconditions passed on to it; the method's
/// record lists the subtask; the current state becomes the original state.
pub open spec fn partial_next_node(n: PartialNodeModel, m: MethodModel, rv2: RelVarsModel, c1: CalledModel, sqi: int, passing1: Seq<PreconditionModel>, idx: int) -> PartialNodeModel {
    let newp = decided_passing(passing1, m, idx, rv2, n.problem);
    let id = m.id as int;
    let af = n.applied_functions;
    let af2 = (af.0, af.1.update(id, (af.1[id].0, af.1[id].1, af.1[id].2.push(af.1.len() as usize), af.1[id].3)));
    let c3 = (c1.0.push(true), c1.1.push((m, rv2, passing1, n.original_state)), c1.2.push((idx + 1) as usize));
    let st = m.subtasks[idx];
    let entry = match st.0 {
        MethodSubtaskModel::Task(t) => (SubtaskTypesModel::Task(t),
            task_call_relvars(t.parameters, st.1, rv2, n.problem.objects, t.parameters.len() as int), c3, newp),
        MethodSubtaskModel::Action(a) => (SubtaskTypesModel::Action(ActionModel { parameters: action_call_params(a.parameters, st.1, rv2), ..a }),
            action_call_relvars(a.parameters, st.1, rv2, n.problem.objects, a.parameters.len() as int), c3, newp),
    };
    PartialNodeModel { subtask_queue: n.subtask_queue.update(sqi, entry), applied_functions: af2, original_state: n.problem.state, ..n }
}

/// What `perform_method` pushes and answers. At its first subtask the method's
/// preconditions must be cleared. A method past its last subtask records what
/// it found and hands back to its caller, or, called by no method, leaves the
/// queue. Otherwise the passed-on and own preconditions must be cleared in
/// the original state, and the method moves on to its next subtask. A method
/// without subtasks hands back or leaves the queue at once.
pub open spec fn partial_method_result(n: PartialNodeModel, m: MethodModel, rv: RelVarsModel, called: CalledModel, sqi: int, passing: Seq<PreconditionModel>) -> (Seq<PartialNodeModel>, bool) {
    let idx = called.2.last() as int;
    let c1 = (called.0, called.1, called.2.drop_last());
    let c2 = (called.0.drop_last(), called.1, called.2.drop_last());
    match entry_relvars(n, m, rv, called) {
        None => (Seq::empty(), false),
        Some(rv1) => if m.subtasks.len() > 0 {
            if idx == m.subtasks.len() {
                let n1 = PartialNodeModel { applied_functions: finished_applied(n.applied_functions, m, rv1), ..n };
                if called.0.last() {
                    (seq![returned_to_caller_partial(n1, m, rv1, c2, sqi)], true)
                } else {
                    (seq![PartialNodeModel { subtask_queue: n1.subtask_queue.remove(sqi), ..n1 }], true)
                }
            } else {
                let passing1 = with_own(passing, m);
                let t = trimmer_result(rv1, passing1, n.problem.objects, n.original_state);
                if !t.1 {
                    (Seq::empty(), false)
                } else {
                    (seq![partial_next_node(n, m, t.0, c1, sqi, passing1, idx)], true)
                }
            }
        } else if !called.0.last() {
            (seq![PartialNodeModel { subtask_queue: n.subtask_queue.remove(sqi), ..n }], true)
        } else {
            (seq![returned_to_caller_partial(n, m, rv1, c2, sqi)], true)
        },
    }
}

/// The inputs on which `perform_method` reads nothing that is missing.
pub open spec fn partial_method_possible(n: PartialNodeModel, m: MethodModel, rv: RelVarsModel, called: CalledModel, sqi: int, passing: Seq<PreconditionModel>) -> bool {
    let idx = called.2.last() as int;
    let c2 = (called.0.drop_last(), called.1, called.2.drop_last());
    &&& called.2.len() > 0
    &&& names_distinct(rv)
    &&& all_variables(rv)
    &&& idx == 0 && m.precondition is Some ==> forall|k: int| 0 <= k < m.precondition.unwrap().len()
        ==> trimmable(#[trigger] m.precondition.unwrap()[k], rv, n.problem.state)
    &&& entry_relvars(n, m, rv, called) is Some ==> {
        let rv1 = entry_relvars(n, m, rv, called).unwrap();
        &&& m.subtasks.len() > 0 ==> idx <= m.subtasks.len()
        &&& (m.subtasks.len() == 0 || idx == m.subtasks.len()) ==> {
            &&& called.0.len() > 0
            &&& 0 <= sqi < n.subtask_queue.len()
            &&& called.0.last() ==> hand_back_possible(m, rv1, c2)
        }
        &&& m.subtasks.len() > 0 && idx == m.subtasks.len() ==> finish_possible(n.applied_functions, m)
        &&& m.subtasks.len() > 0 && idx < m.subtasks.len() ==> {
            let passing1 = with_own(passing, m);
            let t = trimmer_result(rv1, passing1, n.problem.objects, n.original_state);
            &&& forall|k: int| 0 <= k < passing1.len() ==> trimmable(#[trigger] passing1[k], rv, n.original_state)
            &&& t.1 ==> deciding_possible(passing1, m, idx, t.0, n.problem)
            &&& m.id < n.applied_functions.1.len()
            &&& 0 <= sqi < n.subtask_queue.len()
            &&& m.subtasks[idx].1.len() >= subtask_params(m.subtasks[idx]).len()
        }
    }
}

/// Perform a method: check its preconditions, and either move on to its next
/// subtask or, when it is done, record what it found and return to its caller.
#[verifier::rlimit(60)]
pub fn perform_method(node_queue: &mut Vec<PartialNode>, _domain: &Domain, current_node: PartialNode, method: Method, relevant_variables: RelVars, called: Called, subtask_queue_index: usize, passing_preconditions: Vec<Precondition>) -> (res: bool)
    requires
        partial_method_possible(current_node@, method@, relevant_variables.deep_view(), called.deep_view(), subtask_queue_index as int, passing_preconditions.deep_view()),
    ensures
        final(node_queue).deep_view() == old(node_queue).deep_view() + partial_method_result(current_node@, method@,
            relevant_variables.deep_view(), called.deep_view(), subtask_queue_index as int, passing_preconditions.deep_view()).0,
        res == partial_method_result(current_node@, method@, relevant_variables.deep_view(), called.deep_view(),
            subtask_queue_index as int, passing_preconditions.deep_view()).1,
{
    let ghost n = current_node@;
    let ghost m = method@;
    let ghost rv0 = relevant_variables.deep_view();
    let ghost cv = called.deep_view();
    let ghost pv = passing_preconditions.deep_view();
    let ghost q0 = node_queue.deep_view();
    let mut current_node = current_node;
    let mut relevant_variables = relevant_variables;
    let mut called = called;
    let mut passing_preconditions = passing_preconditions;
    let current_subtask_index = called.2.pop().unwrap();
    assert(current_subtask_index == cv.2.last());
    assert(called.2@ =~= cv.2.drop_last());
    if current_subtask_index == 0 {
        match &method.precondition {
            Some(precondition) => {
                assert(m.precondition == Some(precondition.deep_view()));
                let (new_relevant_variables, preconditions_cleared) = precon_trimmer(relevant_variables, precondition, &current_node.problem, &current_node.problem.state);
                if preconditions_cleared {
                    relevant_variables = new_relevant_variables;
                } else {
                    return false;
                }
            },
            None => {},
        }
    }
    let ghost rv1 = relevant_variables.deep_view();
    assert(entry_relvars(n, m, rv0, cv) == Some(rv1));
    assert(same_names(rv1, rv0)) by {
        if !(current_subtask_index == 0 && m.precondition is Some) {
            assert forall|j: int| 0 <= j < rv1.len() implies (#[trigger] rv1[j]).0 == rv0[j].0 && rv1[j].1 == rv0[j].1 by {}
        }
    }
    if method.subtasks.len() > 0 {
        if current_subtask_index == method.subtasks.len() {
            finish_applied(&mut current_node.applied_functions, &method, &relevant_variables);
            let ghost n1 = PartialNodeModel { applied_functions: finished_applied(n.applied_functions, m, rv1), ..n };
            assert(current_node@ == n1);
            let first_method = called.0.pop().unwrap();
            assert(first_method == cv.0.last());
            assert(called.0@ =~= cv.0.drop_last());
            assert(called.deep_view() == (cv.0.drop_last(), cv.1, cv.2.drop_last()));
            let ghost pushed: PartialNodeModel;
            if first_method {
                let new_node = update_vars_for_called_method_partial(current_node, &method, &relevant_variables, called, passing_preconditions, subtask_queue_index);
                proof { pushed = new_node@; }
                node_queue.push(new_node);
            } else {
                let ghost before = current_node.subtask_queue.deep_view();
                current_node.subtask_queue.remove(subtask_queue_index);
                assert(current_node.subtask_queue.deep_view() =~= before.remove(subtask_queue_index as int));
                proof { pushed = current_node@; }
                node_queue.push(current_node);
            }
            assert(node_queue.deep_view() =~= q0.push(pushed));
            assert(partial_method_result(n, m, rv0, cv, subtask_queue_index as int, pv).0 == seq![pushed]);
            assert(node_queue.deep_view() =~= q0 + partial_method_result(n, m, rv0, cv, subtask_queue_index as int, pv).0);
            true
        } else {
            match &method.precondition {
                Some(method_precons) => {
                    let own = clone_preconditions(method_precons);
                    let ghost before = passing_preconditions.deep_view();
                    let mut own = own;
                    passing_preconditions.append(&mut own);
                    assert(passing_preconditions.deep_view() =~= before + method_precons.deep_view());
                },
                None => {},
            }
            let ghost passing1 = passing_preconditions.deep_view();
            assert(passing1 == with_own(pv, m));
            proof {
                lemma_same_names_props(rv0, rv1);
                assert(same_names(rv0, rv1)) by {
                    assert forall|j: int| 0 <= j < rv0.len() implies (#[trigger] rv0[j]).0 == rv1[j].0 && rv0[j].1 == rv1[j].1 by {}
                }
                lemma_same_names_props(rv0, rv1);
                assert forall|k: int| 0 <= k < passing1.len() implies trimmable(#[trigger] passing1[k], rv1, n.original_state) by {
                    lemma_trimmable_same_names(passing1[k], rv0, rv1, n.original_state);
                }
            }
            let (new_relevant_variables, preconditions_cleared) = precon_trimmer(relevant_variables, &passing_preconditions, &current_node.problem, &current_node.original_state);
            if !preconditions_cleared {
                return false;
            }
            relevant_variables = new_relevant_variables;
            let ghost rv2 = relevant_variables.deep_view();
            let new_passing_preconditions = decide_passing_preconditions(&mut passing_preconditions, &method, current_subtask_index, &relevant_variables, &current_node.problem);
            let mut new_subtask_queue = crate::datastructures::node::clone_partial_queue(&current_node.subtask_queue);
            let length = current_node.applied_functions.1.len();
            let id = method.id;
            let ghost af = current_node.applied_functions.deep_view();
            let mut entry_ids = crate::datastructures::node::clone_indices(&current_node.applied_functions.1[id].2);
            entry_ids.push(length);
            proof { crate::datastructures::node::lemma_indices_view(entry_ids); }
            assert(af.1[id as int] == current_node.applied_functions.1@[id as int].deep_view());
            assert(entry_ids.deep_view() =~= af.1[id as int].2.push(length));
            let entry = (current_node.applied_functions.1[id].0.clone(), current_node.applied_functions.1[id].1, entry_ids,
                crate::datastructures::node::clone_relvars(&current_node.applied_functions.1[id].3));
            assert(af.1[id as int] == current_node.applied_functions.1@[id as int].deep_view());
            current_node.applied_functions.1.set(id, entry);
            assert(current_node.applied_functions.1.deep_view() =~= af.1.update(id as int, (af.1[id as int].0, af.1[id as int].1, af.1[id as int].2.push(length), af.1[id as int].3)));
            let subtask = &method.subtasks[current_subtask_index];
            assert(m.subtasks[current_subtask_index as int] == subtask.deep_view());
            let ghost c1 = called.deep_view();
            assert(c1 == (cv.0, cv.1, cv.2.drop_last()));
            let ghost c3 = (c1.0.push(true), c1.1.push((m, rv2, passing1, n.original_state)), c1.2.push((current_subtask_index + 1) as usize));
            let ghost target = partial_next_node(n, m, rv2, c1, subtask_queue_index as int, passing1, current_subtask_index as int);
            let ghost newp = decided_passing(passing1, m, current_subtask_index as int, rv2, n.problem);
            assert(new_passing_preconditions.deep_view() == newp);
            let new_entry = match &subtask.0 {
                MethodSubtask::Task(task) => {
                    let updated_variables = task_call_relvars_exec(task, &subtask.1, &relevant_variables, &current_node.problem.objects);
                    called.0.push(true);
                    called.1.push((method.clone(), relevant_variables, passing_preconditions, clone_state(&current_node.original_state)));
                    called.2.push(current_subtask_index + 1);
                    assert(called.0@ =~= c3.0);
                    assert(called.1.deep_view() =~= c3.1);
                    assert(called.2@ =~= c3.2);
                    assert(called.deep_view() == c3);
                    let e = (SubtaskTypes::Task(task.clone()), updated_variables, called, new_passing_preconditions);
                    assert(e.deep_view() == target.subtask_queue[subtask_queue_index as int]);
                    e
                },
                MethodSubtask::Action(action) => {
                    let (updated_variables, new_action) = action_call_exec(action, &subtask.1, &relevant_variables, &current_node.problem.objects);
                    called.0.push(true);
                    called.1.push((method.clone(), relevant_variables, passing_preconditions, clone_state(&current_node.original_state)));
                    called.2.push(current_subtask_index + 1);
                    assert(called.0@ =~= c3.0);
                    assert(called.1.deep_view() =~= c3.1);
                    assert(called.2@ =~= c3.2);
                    assert(called.deep_view() == c3);
                    let e = (SubtaskTypes::Action(new_action), updated_variables, called, new_passing_preconditions);
                    assert(e.deep_view() == target.subtask_queue[subtask_queue_index as int]);
                    e
                },
            };
            let ghost qv = new_subtask_queue.deep_view();
            new_subtask_queue.set(subtask_queue_index, new_entry);
            assert(new_subtask_queue.deep_view() =~= target.subtask_queue);
            let state_now = clone_state(&current_node.problem.state);
            current_node.subtask_queue = new_subtask_queue;
            current_node.original_state = state_now;
            assert(current_node@ == target);
            node_queue.push(current_node);
            assert(node_queue.deep_view() =~= q0.push(target));
            assert(node_queue.deep_view() =~= q0 + partial_method_result(n, m, rv0, cv, subtask_queue_index as int, pv).0);
            true
        }
    } else {
        let first_method = called.0.pop().unwrap();
        assert(first_method == cv.0.last());
        assert(called.0@ =~= cv.0.drop_last());
        assert(called.deep_view() == (cv.0.drop_last(), cv.1, cv.2.drop_last()));
        let ghost pushed: PartialNodeModel;
        if !first_method {
            let ghost before = current_node.subtask_queue.deep_view();
            current_node.subtask_queue.remove(subtask_queue_index);
            assert(current_node.subtask_queue.deep_view() =~= before.remove(subtask_queue_index as int));
            proof { pushed = current_node@; }
            node_queue.push(current_node);
        } else {
            let new_node = update_vars_for_called_method_partial(current_node, &method, &relevant_variables, called, passing_preconditions, subtask_queue_index);
            proof { pushed = new_node@; }
            node_queue.push(new_node);
        }
        assert(node_queue.deep_view() =~= q0.push(pushed));
        assert(partial_method_result(n, m, rv0, cv, subtask_queue_index as int, pv).0 == seq![pushed]);
        assert(node_queue.deep_view() =~= q0 + partial_method_result(n, m, rv0, cv, subtask_queue_index as int, pv).0);
        true
    }
}

} // verus!
