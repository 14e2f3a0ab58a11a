//! Performing a task of the initial network in the partially ordered search.
use vstd::prelude::*;
use crate::datastructures::domain::{Str, Domain, DomainModel, Method, MethodModel, Action, ActionModel, ArgumentModel, Precondition, PreconditionModel, clone_preconditions};
use crate::datastructures::node::{RelVars, RelVarsModel, PartialNode, PartialNodeModel, Called, CalledModel, SubtaskTypes, SubtaskTypesModel, clone_called, clone_relvars, clone_applied, clone_partial_queue, copy_hash_table};
use crate::toolbox::methods::{table_lookup, sorted_by_subtasks, get_methods, sort_by_subtasks};
use crate::toolbox::update::{updated_relvars, update_relevant_variables};
use crate::toolbox::make_partial_node;
use crate::perform::{const_entries, const_entries_exec_pub};

verus! {

/// Whether some relevant variable has no value.
pub open spec fn some_empty(rv: RelVarsModel) -> bool {
    exists|j: int| 0 <= j < rv.len() && (#[trigger] rv[j]).2.len() == 0
}

/// The nodes for the first `k` methods of a task of the initial network, and
/// the call stack after them: every method whose relevant variables all have
/// values is recorded as applied (with the next id) and replaces the task in
/// the queue; each pushes a new level onto the (shared) call stack.
pub open spec fn htn_method_nodes(n: PartialNodeModel, ms: Seq<MethodModel>, rv: RelVarsModel, called: CalledModel, sqi: int, passing: Seq<PreconditionModel>, k: int) -> (Seq<PartialNodeModel>, CalledModel)
    decreases k,
{
    if k <= 0 {
        (Seq::empty(), called)
    } else {
        let prev = htn_method_nodes(n, ms, rv, called, sqi, passing, k - 1);
        let urv = updated_relvars(n.problem, ms[k - 1], rv);
        if some_empty(urv) {
            prev
        } else {
            let c = prev.1;
            let c1 = (c.0.push(false), c.1, c.2.push(0usize));
            let af = n.applied_functions;
            let id = af.1.len() as usize;
            let m = MethodModel { id, ..ms[k - 1] };
            let af1 = ((af.0.0, af.0.1.push(id)), af.1.push((SubtaskTypesModel::Method(m), id, Seq::<usize>::empty(), rv)));
            let node = PartialNodeModel {
                subtask_queue: n.subtask_queue.update(sqi, (SubtaskTypesModel::Method(m), urv, c1, passing)),
                applied_functions: af1,
                ..n
            };
            (prev.0.push(node), c1)
        }
    }
}

/// The relevant variables of a primitive task of the initial network: for
/// each parameter, the objects named by the task's argument at its position.
pub open spec fn htn_action_relvars(params: Seq<ArgumentModel>, args: Seq<Str>, objects: Seq<(Str, Str, Seq<Str>)>, k: int) -> RelVarsModel
    decreases k,
{
    if k <= 0 {
        Seq::empty()
    } else {
        htn_action_relvars(params, args, objects, k - 1) + const_entries(args[k - 1], params[k - 1].name, objects, objects.len() as int)
    }
}

/// The nodes for the first `k` actions of the domain that a primitive task of
/// the initial network names, and the call stack after them.
pub open spec fn htn_action_nodes(n: PartialNodeModel, actions: Seq<ActionModel>, htn: (Str, Str, Seq<Str>), called: CalledModel, sqi: int, passing: Seq<PreconditionModel>, k: int) -> (Seq<PartialNodeModel>, CalledModel)
    decreases k,
{
    if k <= 0 {
        (Seq::empty(), called)
    } else {
        let prev = htn_action_nodes(n, actions, htn, called, sqi, passing, k - 1);
        let a = actions[k - 1];
        if a.name != htn.0 {
            prev
        } else {
            let c = prev.1;
            let c1 = (c.0.push(false), c.1, c.2.push(0usize));
            let urv = htn_action_relvars(a.parameters, htn.2, n.problem.objects, a.parameters.len() as int);
            let af = n.applied_functions;
            let node = PartialNodeModel {
                subtask_queue: n.subtask_queue.update(sqi, (SubtaskTypesModel::Action(a), urv, c1, passing)),
                applied_functions: ((af.0.0, af.0.1.push(af.1.len() as usize)), af.1),
                ..n
            };
            (prev.0.push(node), c1)
        }
    }
}

/// What `perform_htn_task` pushes and leaves of the call stack: a node for
/// every method of the task (most subtasks first), or, when the domain has
/// no methods for it, for every action of its name.
pub open spec fn partial_htn_result(n: PartialNodeModel, d: DomainModel, htn: (Str, Str, Seq<Str>), rv: RelVarsModel, called: CalledModel, sqi: int, passing: Seq<PreconditionModel>) -> (Seq<PartialNodeModel>, CalledModel) {
    match table_lookup(d.methods, htn.0) {
        Some(ms) => htn_method_nodes(n, sorted_by_subtasks(ms), rv, called, sqi, passing, ms.len() as int),
        None => htn_action_nodes(n, d.actions, htn, called, sqi, passing, d.actions.len() as int),
    }
}

/// The inputs on which `perform_htn_task` reads nothing that is missing.
pub open spec fn partial_htn_possible(n: PartialNodeModel, d: DomainModel, htn: (Str, Str, Seq<Str>), rv: RelVarsModel, sqi: int) -> bool {
    &&& 0 <= sqi < n.subtask_queue.len()
    &&& match table_lookup(d.methods, htn.0) {
        Some(ms) => forall|k: int| 0 <= k < ms.len() ==> (#[trigger] sorted_by_subtasks(ms)[k]).task.1.len() <= rv.len(),
        None => forall|k: int| 0 <= k < d.actions.len() && (#[trigger] d.actions[k]).name == htn.0 ==> htn.2.len() >= d.actions[k].parameters.len(),
    }
}

fn any_empty(rv: &RelVars) -> (res: bool)
    ensures
        res == some_empty(rv.deep_view()),
{
    let ghost s = rv.deep_view();
    let mut j: usize = 0;
    while j < rv.len()
        invariant
            s == rv.deep_view(),
            j <= rv.len(),
            forall|q: int| 0 <= q < j ==> (#[trigger] s[q]).2.len() != 0,
        decreases rv.len() - j,
    {
        assert(s[j as int] == rv@[j as int].deep_view());
        if rv[j].2.len() == 0 {
            return true;
        }
        j = j + 1;
    }
    false
}

/// Perform a task of the initial network: a new node for every method that
/// expands it, or for every action that it names.
#[verifier::rlimit(40)]
pub fn perform_htn_task(node_queue: &mut Vec<PartialNode>, domain: &Domain, current_node: PartialNode, htn_task: (String, String, Vec<String>), relevant_variables: RelVars, called: &mut Called, subtask_queue_index: usize, passing_preconditions: Vec<Precondition>) -> (res: bool)
    requires
        partial_htn_possible(current_node@, domain@, htn_task.deep_view(), relevant_variables.deep_view(), subtask_queue_index as int),
    ensures
        ({
            let r = partial_htn_result(current_node@, domain@, htn_task.deep_view(), relevant_variables.deep_view(), old(called).deep_view(),
                subtask_queue_index as int, passing_preconditions.deep_view());
            &&& final(node_queue).deep_view() == old(node_queue).deep_view() + r.0
            &&& final(called).deep_view() == r.1
        }),
        res,
{
    let ghost n = current_node@;
    let ghost d = domain@;
    let ghost h = htn_task.deep_view();
    let ghost rv = relevant_variables.deep_view();
    let ghost c0 = called.deep_view();
    let ghost pv = passing_preconditions.deep_view();
    let ghost q0 = node_queue.deep_view();
    match get_methods(&domain.methods, &htn_task.0) {
        Some(found) => {
            let method_list = sort_by_subtasks(found);
            let ghost ms = method_list.deep_view();
            let ghost orig = found.deep_view();
            proof { crate::toolbox::methods::lemma_sorted_len_pub(orig); }
            let mut k: usize = 0;
            while k < method_list.len()
                invariant
                    ms == method_list.deep_view(),
                    ms == sorted_by_subtasks(orig),
                    table_lookup(d.methods, h.0) == Some(orig),
                    ms.len() == orig.len(),
                    forall|q: int| 0 <= q < ms.len() ==> (#[trigger] ms[q]).task.1.len() <= rv.len(),
                    n == current_node@,
                    rv == relevant_variables.deep_view(),
                    pv == passing_preconditions.deep_view(),
                    0 <= subtask_queue_index < n.subtask_queue.len(),
                    k <= method_list.len(),
                    ({
                        let r = htn_method_nodes(n, ms, rv, c0, subtask_queue_index as int, pv, k as int);
                        node_queue.deep_view() == q0 + r.0 && called.deep_view() == r.1
                    }),
                decreases method_list.len() - k,
            {
                assert(ms[k as int] == method_list@[k as int].deep_view());
                let updated = update_relevant_variables(&current_node.problem, &method_list[k], &relevant_variables);
                if !any_empty(&updated) {
                    let ghost prev = htn_method_nodes(n, ms, rv, c0, subtask_queue_index as int, pv, k as int);
                    let ghost urv = updated_relvars(n.problem, ms[k as int], rv);
                    assert(updated.deep_view() == urv);
                    let mut method = method_list[k].clone();
                    let mut applied = clone_applied(&current_node.applied_functions);
                    let ghost af = applied.deep_view();
                    let id = applied.1.len();
                    method.id = id;
                    let ghost m2 = MethodModel { id, ..ms[k as int] };
                    assert(method@ == m2);
                    applied.0.1.push(id);
                    let no_ids: Vec<usize> = Vec::new();
                    assert(no_ids.deep_view() =~= Seq::<usize>::empty());
                    applied.1.push((SubtaskTypes::Method(method.clone()), id, no_ids, clone_relvars(&relevant_variables)));
                    proof { crate::datastructures::node::lemma_indices_view(applied.0.1); }
                    assert(applied.0.1.deep_view() =~= af.0.1.push(id));
                    assert(applied.1.deep_view() =~= af.1.push((SubtaskTypesModel::Method(m2), id, Seq::<usize>::empty(), rv)));
                    let ghost cb = called.deep_view();
                    assert(cb == prev.1);
                    called.0.push(false);
                    called.2.push(0);
                    proof { crate::datastructures::node::lemma_indices_view(called.2); }
                    assert(called.deep_view() == (cb.0.push(false), cb.1, cb.2.push(0usize)));
                    let mut queue = clone_partial_queue(&current_node.subtask_queue);
                    let ghost qv = queue.deep_view();
                    queue.set(subtask_queue_index, (SubtaskTypes::Method(method), updated, clone_called(called), clone_preconditions(&passing_preconditions)));
                    assert(queue.deep_view() =~= qv.update(subtask_queue_index as int, (SubtaskTypesModel::Method(m2), urv, called.deep_view(), pv)));
                    let new_node = make_partial_node(current_node.problem.clone(), queue, applied, copy_hash_table(&current_node.hash_table),
                        current_node.hash_counter.clone(), crate::datastructures::domain::clone_strings(&current_node.goal_functions), &current_node.original_state);
                    let ghost r = htn_method_nodes(n, ms, rv, c0, subtask_queue_index as int, pv, k as int + 1);
                    let ghost nq = node_queue.deep_view();
                    proof { crate::datastructures::node::lemma_indices_view(applied.0.1); }
                    assert(new_node@ == r.0.last());
                    node_queue.push(new_node);
                    assert(node_queue.deep_view() =~= nq.push(r.0.last()));
                    assert(node_queue.deep_view() =~= q0 + r.0);
                    assert(called.deep_view() == r.1);
                }
                k = k + 1;
            }
        },
        None => {
            let mut k: usize = 0;
            while k < domain.actions.len()
                invariant
                    table_lookup(d.methods, h.0) is None,
                    d == domain@,
                    h == htn_task.deep_view(),
                    n == current_node@,
                    pv == passing_preconditions.deep_view(),
                    forall|q: int| 0 <= q < d.actions.len() && (#[trigger] d.actions[q]).name == h.0 ==> h.2.len() >= d.actions[q].parameters.len(),
                    0 <= subtask_queue_index < n.subtask_queue.len(),
                    k <= domain.actions.len(),
                    ({
                        let r = htn_action_nodes(n, d.actions, h, c0, subtask_queue_index as int, pv, k as int);
                        node_queue.deep_view() == q0 + r.0 && called.deep_view() == r.1
                    }),
                decreases domain.actions.len() - k,
            {
                let action = &domain.actions[k];
                assert(d.actions[k as int] == action@);
                if action.name == htn_task.0 {
                    let ghost ps = action@.parameters;
                    let mut updated: RelVars = Vec::new();
                    let mut p: usize = 0;
                    while p < action.parameters.len()
                        invariant
                            ps == action@.parameters,
                            h == htn_task.deep_view(),
                            h.2.len() >= ps.len(),
                            p <= action.parameters.len(),
                            updated.deep_view() == htn_action_relvars(ps, h.2, n.problem.objects, p as int),
                            n == current_node@,
                        decreases action.parameters.len() - p,
                    {
                        assert(ps[p as int] == action.parameters@[p as int]@);
                        assert(h.2[p as int] == htn_task.2@[p as int]@);
                        const_entries_exec_pub(&htn_task.2[p], &action.parameters[p].name, &current_node.problem.objects, &mut updated);
                        p = p + 1;
                    }
                    let ghost prev = htn_action_nodes(n, d.actions, h, c0, subtask_queue_index as int, pv, k as int);
                    let ghost cb = called.deep_view();
                    assert(cb == prev.1);
                    called.0.push(false);
                    called.2.push(0);
                    proof { crate::datastructures::node::lemma_indices_view(called.2); }
                    assert(called.deep_view() == (cb.0.push(false), cb.1, cb.2.push(0usize)));
                    let mut queue = clone_partial_queue(&current_node.subtask_queue);
                    let ghost qv = queue.deep_view();
                    queue.set(subtask_queue_index, (SubtaskTypes::Action(action.clone()), updated, clone_called(called), clone_preconditions(&passing_preconditions)));
                    assert(queue.deep_view() =~= qv.update(subtask_queue_index as int, (SubtaskTypesModel::Action(d.actions[k as int]),
                        htn_action_relvars(action@.parameters, h.2, n.problem.objects, action@.parameters.len() as int), called.deep_view(), pv)));
                    let mut applied = clone_applied(&current_node.applied_functions);
                    let ghost af = applied.deep_view();
                    let len = applied.1.len();
                    applied.0.1.push(len);
                    proof { crate::datastructures::node::lemma_indices_view(applied.0.1); }
                    assert(applied.0.1.deep_view() =~= af.0.1.push(len));
                    let new_node = make_partial_node(current_node.problem.clone(), queue, applied, copy_hash_table(&current_node.hash_table),
                        current_node.hash_counter.clone(), crate::datastructures::domain::clone_strings(&current_node.goal_functions), &current_node.original_state);
                    let ghost r = htn_action_nodes(n, d.actions, h, c0, subtask_queue_index as int, pv, k as int + 1);
                    let ghost nq = node_queue.deep_view();
                    proof { crate::datastructures::node::lemma_indices_view(applied.0.1); }
                    assert(new_node@ == r.0.last());
                    node_queue.push(new_node);
                    assert(node_queue.deep_view() =~= nq.push(r.0.last()));
                    assert(node_queue.deep_view() =~= q0 + r.0);
                }
                k = k + 1;
            }
        },
    }
    true
}

} // verus!
