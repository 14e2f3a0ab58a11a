//! Performing a task of the initial network in the totally ordered search.
use vstd::prelude::*;
use crate::datastructures::domain::{Str, Domain, DomainModel, Method, MethodModel, Action, ActionModel};
use crate::datastructures::node::{RelVars, RelVarsModel, Node, NodeModel, CalledModel, SubtaskTypes, SubtaskTypesModel, clone_called, clone_relvars, clone_applied, clone_queue, copy_hash_table};
use crate::toolbox::methods::{table_lookup, sorted_by_subtasks, get_methods, sort_by_subtasks};
use crate::toolbox::update::{updated_relvars, update_relevant_variables};
use crate::toolbox::make_node;
use crate::perform::const_entries_exec_pub;
use crate::perform::partial::htn::{some_empty, htn_action_relvars};

verus! {

/// The nodes for the first `k` methods of a task of the initial network, and
/// the node's call stack after them: every method whose relevant variables
/// all have values is recorded as applied (with the next id) and goes onto
/// the subtask queue; each pushes a new level onto the node's call stack.
pub open spec fn total_htn_method_nodes(n: NodeModel, ms: Seq<MethodModel>, rv: RelVarsModel, k: int) -> (Seq<NodeModel>, CalledModel)
    decreases k,
{
    if k <= 0 {
        (Seq::empty(), n.called)
    } else {
        let prev = total_htn_method_nodes(n, ms, rv, k - 1);
        let urv = updated_relvars(n.problem, ms[k - 1], rv);
        if some_empty(urv) {
            prev
        } else {
            let c = prev.1;
            let c1 = (c.0.push(false), c.1, c.2.push(0usize));
            let af = n.applied_functions;
            let id = af.1.len() as usize;
            let m = MethodModel { id, ..ms[k - 1] };
            let af1 = ((af.0.0, af.0.1.push(id)), af.1.push((SubtaskTypesModel::Method(m), id, Seq::<usize>::empty(), rv)));
            let node = NodeModel {
                subtask_queue: n.subtask_queue.push((SubtaskTypesModel::Method(m), urv)),
                called: c1,
                applied_functions: af1,
                ..n
            };
            (prev.0.push(node), c1)
        }
    }
}

/// The nodes for the first `k` actions of the domain that a primitive task of
/// the initial network names, with the node's call stack and root list after them.
pub open spec fn total_htn_action_nodes(n: NodeModel, actions: Seq<ActionModel>, htn: (Str, Str, Seq<Str>), k: int) -> (Seq<NodeModel>, CalledModel, Seq<usize>)
    decreases k,
{
    if k <= 0 {
        (Seq::empty(), n.called, n.applied_functions.0.1)
    } else {
        let prev = total_htn_action_nodes(n, actions, htn, k - 1);
        let a = actions[k - 1];
        if a.name != htn.0 {
            prev
        } else {
            let c = prev.1;
            let c1 = (c.0.push(false), c.1, c.2.push(0usize));
            let roots = prev.2.push(n.applied_functions.1.len() as usize);
            let urv = htn_action_relvars(a.parameters, htn.2, n.problem.objects, a.parameters.len() as int);
            let node = NodeModel {
                subtask_queue: n.subtask_queue.push((SubtaskTypesModel::Action(a), urv)),
                called: c1,
                applied_functions: ((n.applied_functions.0.0, roots), n.applied_functions.1),
                ..n
            };
            (prev.0.push(node), c1, roots)
        }
    }
}

/// What `perform_htn_task` pushes: a node for every method of the task (most
/// subtasks first), or, when the domain has no methods for it, for every
/// action of its name.
pub open spec fn total_htn_result(n: NodeModel, d: DomainModel, htn: (Str, Str, Seq<Str>), rv: RelVarsModel) -> Seq<NodeModel> {
    match table_lookup(d.methods, htn.0) {
        Some(ms) => total_htn_method_nodes(n, sorted_by_subtasks(ms), rv, ms.len() as int).0,
        None => total_htn_action_nodes(n, d.actions, htn, d.actions.len() as int).0,
    }
}

/// The inputs on which `perform_htn_task` reads nothing that is missing.
pub open spec fn total_htn_possible(d: DomainModel, htn: (Str, Str, Seq<Str>), rv: RelVarsModel) -> bool {
    match table_lookup(d.methods, htn.0) {
        Some(ms) => forall|k: int| 0 <= k < ms.len() ==> (#[trigger] sorted_by_subtasks(ms)[k]).task.1.len() <= rv.len(),
        None => forall|k: int| 0 <= k < d.actions.len() && (#[trigger] d.actions[k]).name == htn.0 ==> htn.2.len() >= d.actions[k].parameters.len(),
    }
}

/// Perform a task of the initial network: a new node for every method that
/// expands it, or for every action that it names.
#[verifier::rlimit(40)]
pub fn perform_htn_task(node_queue: &mut Vec<Node>, domain: &Domain, current_node: Node, htn_task: (String, String, Vec<String>), relevant_variables: RelVars)
    requires
        total_htn_possible(domain@, htn_task.deep_view(), relevant_variables.deep_view()),
    ensures
        final(node_queue).deep_view() == old(node_queue).deep_view() + total_htn_result(current_node@, domain@, htn_task.deep_view(), relevant_variables.deep_view()),
{
    let ghost n = current_node@;
    let ghost d = domain@;
    let ghost h = htn_task.deep_view();
    let ghost rv = relevant_variables.deep_view();
    let ghost q0 = node_queue.deep_view();
    let mut current_node = current_node;
    match get_methods(&domain.methods, &htn_task.0) {
        Some(found) => {
            let method_list = sort_by_subtasks(found);
            let ghost ms = method_list.deep_view();
            let ghost orig = found.deep_view();
            proof { crate::toolbox::methods::lemma_sorted_len_pub(orig); }
            let mut k: usize = 0;
            while k < method_list.len()
                invariant
                    ms == method_list.deep_view(),
                    ms == sorted_by_subtasks(orig),
                    table_lookup(d.methods, h.0) == Some(orig),
                    ms.len() == orig.len(),
                    forall|q: int| 0 <= q < ms.len() ==> (#[trigger] ms[q]).task.1.len() <= rv.len(),
                    current_node@ == (NodeModel { called: current_node@.called, ..n }),
                    rv == relevant_variables.deep_view(),
                    k <= method_list.len(),
                    ({
                        let r = total_htn_method_nodes(n, ms, rv, k as int);
                        node_queue.deep_view() == q0 + r.0 && current_node@.called == r.1
                    }),
                decreases method_list.len() - k,
            {
                assert(ms[k as int] == method_list@[k as int].deep_view());
                let updated = update_relevant_variables(&current_node.problem, &method_list[k], &relevant_variables);
                let mut empty = false;
                let mut j: usize = 0;
                while j < updated.len()
                    invariant
                        j <= updated.len(),
                        empty == exists|q: int| 0 <= q < j && (#[trigger] updated.deep_view()[q]).2.len() == 0,
                    decreases updated.len() - j,
                {
                    assert(updated.deep_view()[j as int] == updated@[j as int].deep_view());
                    if updated[j].2.len() == 0 {
                        empty = true;
                    }
                    j = j + 1;
                }
                if !empty {
                    let ghost prev = total_htn_method_nodes(n, ms, rv, k as int);
                    let ghost urv = updated_relvars(n.problem, ms[k as int], rv);
                    assert(updated.deep_view() == urv);
                    let mut method = method_list[k].clone();
                    let mut applied = clone_applied(&current_node.applied_functions);
                    let ghost af = applied.deep_view();
                    let id = applied.1.len();
                    method.id = id;
                    let ghost m2 = MethodModel { id, ..ms[k as int] };
                    assert(method@ == m2);
                    applied.0.1.push(id);
                    let no_ids: Vec<usize> = Vec::new();
                    assert(no_ids.deep_view() =~= Seq::<usize>::empty());
                    applied.1.push((SubtaskTypes::Method(method.clone()), id, no_ids, clone_relvars(&relevant_variables)));
                    proof { crate::datastructures::node::lemma_indices_view(applied.0.1); }
                    assert(applied.0.1.deep_view() =~= af.0.1.push(id));
                    assert(applied.1.deep_view() =~= af.1.push((SubtaskTypesModel::Method(m2), id, Seq::<usize>::empty(), rv)));
                    let mut queue = clone_queue(&current_node.subtask_queue);
                    let ghost qv = queue.deep_view();
                    queue.push((SubtaskTypes::Method(method), updated));
                    assert(queue.deep_view() =~= qv.push((SubtaskTypesModel::Method(m2), urv)));
                    let ghost cb = current_node@.called;
                    current_node.called.0.push(false);
                    current_node.called.2.push(0);
                    proof { crate::datastructures::node::lemma_indices_view(current_node.called.2); }
                    assert(current_node@.called == (cb.0.push(false), cb.1, cb.2.push(0usize)));
                    let new_node = make_node(current_node.problem.clone(), queue, clone_called(&current_node.called), applied,
                        copy_hash_table(&current_node.hash_table), crate::datastructures::domain::clone_preconditions(&current_node.passing_preconditions),
                        crate::datastructures::domain::clone_strings(&current_node.goal_functions));
                    let ghost r = total_htn_method_nodes(n, ms, rv, k as int + 1);
                    let ghost nq = node_queue.deep_view();
                    assert(new_node@ == r.0.last());
                    node_queue.push(new_node);
                    assert(node_queue.deep_view() =~= nq.push(r.0.last()));
                } else {
                    assert(some_empty(updated.deep_view()));
                }
                k = k + 1;
            }
        },
        None => {
            let mut k: usize = 0;
            while k < domain.actions.len()
                invariant
                    table_lookup(d.methods, h.0) is None,
                    d == domain@,
                    h == htn_task.deep_view(),
                    forall|q: int| 0 <= q < d.actions.len() && (#[trigger] d.actions[q]).name == h.0 ==> h.2.len() >= d.actions[q].parameters.len(),
                    current_node@ == (NodeModel { called: current_node@.called, applied_functions: current_node@.applied_functions, ..n }),
                    current_node@.applied_functions.1 == n.applied_functions.1,
                    current_node@.applied_functions.0.0 == n.applied_functions.0.0,
                    k <= domain.actions.len(),
                    ({
                        let r = total_htn_action_nodes(n, d.actions, h, k as int);
                        node_queue.deep_view() == q0 + r.0 && current_node@.called == r.1 && current_node@.applied_functions.0.1 == r.2
                    }),
                decreases domain.actions.len() - k,
            {
                let action = &domain.actions[k];
                assert(d.actions[k as int] == action@);
                if action.name == htn_task.0 {
                    let ghost prev = total_htn_action_nodes(n, d.actions, h, k as int);
                    let ghost ps = action@.parameters;
                    let mut updated: RelVars = Vec::new();
                    let mut p: usize = 0;
                    while p < action.parameters.len()
                        invariant
                            ps == action@.parameters,
                            h == htn_task.deep_view(),
                            h.2.len() >= ps.len(),
                            p <= action.parameters.len(),
                            updated.deep_view() == htn_action_relvars(ps, h.2, n.problem.objects, p as int),
                            current_node@.problem == n.problem,
                        decreases action.parameters.len() - p,
                    {
                        assert(ps[p as int] == action.parameters@[p as int]@);
                        assert(h.2[p as int] == htn_task.2@[p as int]@);
                        const_entries_exec_pub(&htn_task.2[p], &action.parameters[p].name, &current_node.problem.objects, &mut updated);
                        p = p + 1;
                    }
                    let mut queue = clone_queue(&current_node.subtask_queue);
                    let ghost qv = queue.deep_view();
                    queue.push((SubtaskTypes::Action(action.clone()), updated));
                    assert(queue.deep_view() =~= qv.push((SubtaskTypesModel::Action(d.actions[k as int]),
                        htn_action_relvars(action@.parameters, h.2, n.problem.objects, action@.parameters.len() as int))));
                    let ghost cb = current_node@.called;
                    current_node.called.0.push(false);
                    current_node.called.2.push(0);
                    proof { crate::datastructures::node::lemma_indices_view(current_node.called.2); }
                    assert(current_node@.called == (cb.0.push(false), cb.1, cb.2.push(0usize)));
                    let ghost rb = current_node@.applied_functions.0.1;
                    let len = current_node.applied_functions.1.len();
                    current_node.applied_functions.0.1.push(len);
                    proof { crate::datastructures::node::lemma_indices_view(current_node.applied_functions.0.1); }
                    assert(current_node@.applied_functions.0.1 == rb.push(len));
                    let new_node = make_node(current_node.problem.clone(), queue, clone_called(&current_node.called), clone_applied(&current_node.applied_functions),
                        copy_hash_table(&current_node.hash_table), crate::datastructures::domain::clone_preconditions(&current_node.passing_preconditions),
                        crate::datastructures::domain::clone_strings(&current_node.goal_functions));
                    let ghost r = total_htn_action_nodes(n, d.actions, h, k as int + 1);
                    let ghost nq = node_queue.deep_view();
                    assert(new_node@ == r.0.last());
                    node_queue.push(new_node);
                    assert(node_queue.deep_view() =~= nq.push(r.0.last()));
                }
                k = k + 1;
            }
        },
    }
}

} // verus!
