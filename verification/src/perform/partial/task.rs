//! Performing a compound task in the partially ordered search.
use vstd::prelude::*;
use crate::datastructures::domain::{Domain, DomainModel, Task, TaskModel, Method, MethodModel, Argument, ArgumentModel, Precondition, PreconditionModel};
use crate::datastructures::node::{RelVars, RelVarsModel, PartialNode, PartialNodeModel, Called, CalledModel, SubtaskTypes, SubtaskTypesModel, clone_called, clone_relvars, clone_applied, clone_partial_queue, copy_hash_table};
use crate::text::string_of;
use crate::toolbox::methods::{prioritized, prioritize_methods, reorderings, subtask_orders, generate_method_subtask_perm};
use crate::toolbox::domain_ops::has_key;
use crate::toolbox::update::{updated_relvars, update_relevant_variables};
use crate::toolbox::passing_preconditions::{renaming_possible, update_passing_precondition};
use crate::toolbox::make_partial_node;
use crate::perform::partial::action::renamed_passing;
use crate::perform::partial::htn::some_empty;

verus! {

/// The arguments of a method's task as parameters of no particular type.
pub open spec fn task_args(m: MethodModel) -> Seq<ArgumentModel> {
    Seq::new(m.task.1.len(), |i: int| ArgumentModel { name: m.task.1[i], object_type: "none"@ })
}

/// The node in which a method (with the given subtask order) replaces the task.
pub open spec fn task_node(n: PartialNodeModel, m: MethodModel, subtasks: Seq<(crate::datastructures::domain::MethodSubtaskModel, Seq<ArgumentModel>)>,
    nrv: RelVarsModel, nc: CalledModel, newp: Seq<PreconditionModel>, af: crate::datastructures::node::AppliedFunctionsModel, sqi: int) -> PartialNodeModel {
    PartialNodeModel {
        subtask_queue: n.subtask_queue.update(sqi, (SubtaskTypesModel::Method(MethodModel { subtasks, ..m }), nrv, nc, newp)),
        applied_functions: af,
        original_state: n.problem.state,
        ..n
    }
}

/// The nodes for the first `k` methods of a task. Every method is recorded as
/// applied with the next id; when its relevant variables all have values it
/// replaces the task, with the passed-on preconditions renamed to its task's
/// arguments and a new subtask index; an unordered method with several
/// subtasks does so once for every order of its subtasks.
pub open spec fn task_method_nodes(n: PartialNodeModel, ms: Seq<MethodModel>, rv: RelVarsModel, called: CalledModel, passing: Seq<PreconditionModel>, sqi: int, k: int) -> Seq<PartialNodeModel>
    decreases k,
{
    if k <= 0 {
        Seq::empty()
    } else {
        let prev = task_method_nodes(n, ms, rv, called, passing, sqi, k - 1);
        let af = n.applied_functions;
        let id = af.1.len() as usize;
        let m = MethodModel { id, ..ms[k - 1] };
        let cnaf = (af.0, af.1.push((SubtaskTypesModel::Method(m), id, Seq::<usize>::empty(), rv)));
        let nrv = updated_relvars(n.problem, m, rv);
        if some_empty(nrv) {
            prev
        } else {
            let newp = renamed_passing(passing, called, task_args(m));
            let nc = (called.0, called.1, called.2.push(0usize));
            if !m.ordering && m.subtasks.len() > 1 {
                let orders = reorderings(m.subtasks, subtask_orders(m.subtasks.len() as usize));
                prev + Seq::new(orders.len(), |j: int| task_node(n, m, orders[j], nrv, nc, newp, cnaf, sqi))
            } else {
                prev.push(task_node(n, m, m.subtasks, nrv, nc, newp, cnaf, sqi))
            }
        }
    }
}

/// What `perform_task` pushes: the nodes for the task's methods, those that
/// serve the goal first.
pub open spec fn partial_task_result(n: PartialNodeModel, d: DomainModel, t: TaskModel, rv: RelVarsModel, called: CalledModel, passing: Seq<PreconditionModel>, sqi: int) -> Seq<PartialNodeModel> {
    let ms = prioritized(d.methods, n.problem.goal is Some, n.goal_functions, t.name);
    task_method_nodes(n, ms, rv, called, passing, sqi, ms.len() as int)
}

/// The inputs on which `perform_task` reads nothing that is missing.
pub open spec fn partial_task_possible(n: PartialNodeModel, d: DomainModel, t: TaskModel, rv: RelVarsModel, called: CalledModel, passing: Seq<PreconditionModel>, sqi: int) -> bool {
    let ms = prioritized(d.methods, n.problem.goal is Some, n.goal_functions, t.name);
    &&& n.problem.goal is None ==> has_key(d.methods, t.name)
    &&& 0 <= sqi < n.subtask_queue.len()
    &&& forall|k: int| 0 <= k < ms.len() ==> (#[trigger] ms[k]).task.1.len() <= rv.len()
    &&& passing.len() > 0 ==> forall|k: int| 0 <= k < ms.len() ==> renaming_possible(called, task_args(#[trigger] ms[k]))
}

fn task_arg_list(method: &Method) -> (res: Vec<Argument>)
    ensures
        res.deep_view() == task_args(method@),
{
    let ghost target = task_args(method@);
    let mut res: Vec<Argument> = Vec::new();
    let mut i: usize = 0;
    while i < method.task.1.len()
        invariant
            target == task_args(method@),
            i <= method.task.1.len(),
            res.deep_view() == target.take(i as int),
        decreases method.task.1.len() - i,
    {
        assert(method@.task.1[i as int] == method.task.1@[i as int]@);
        let ghost before = res.deep_view();
        res.push(Argument { name: method.task.1[i].clone(), object_type: string_of("none") });
        assert(res.deep_view() =~= before.push(target[i as int]));
        assert(target.take(i + 1) =~= target.take(i as int).push(target[i as int]));
        i = i + 1;
    }
    assert(target.take(i as int) =~= target);
    res
}

/// Perform a task: a new node for every method that refines it (and for every
/// order of the subtasks of an unordered method).
#[verifier::rlimit(60)]
pub fn perform_task(node_queue: &mut Vec<PartialNode>, domain: &Domain, current_node: PartialNode, task: Task, relevant_variables: RelVars, called: Called, passing_preconditions: Vec<Precondition>, subtask_queue_index: usize) -> (res: bool)
    requires
        partial_task_possible(current_node@, domain@, task@, relevant_variables.deep_view(), called.deep_view(), passing_preconditions.deep_view(), subtask_queue_index as int),
    ensures
        final(node_queue).deep_view() == old(node_queue).deep_view() + partial_task_result(current_node@, domain@, task@,
            relevant_variables.deep_view(), called.deep_view(), passing_preconditions.deep_view(), subtask_queue_index as int),
        res,
{
    let ghost n = current_node@;
    let ghost rv = relevant_variables.deep_view();
    let ghost cv = called.deep_view();
    let ghost pv = passing_preconditions.deep_view();
    let ghost q0 = node_queue.deep_view();
    let method_list = prioritize_methods(domain, &current_node.problem, &current_node.goal_functions, task.name);
    let ghost ms = method_list.deep_view();
    let mut k: usize = 0;
    while k < method_list.len()
        invariant
            ms == method_list.deep_view(),
            n == current_node@,
            rv == relevant_variables.deep_view(),
            cv == called.deep_view(),
            pv == passing_preconditions.deep_view(),
            0 <= subtask_queue_index < n.subtask_queue.len(),
            forall|q: int| 0 <= q < ms.len() ==> (#[trigger] ms[q]).task.1.len() <= rv.len(),
            pv.len() > 0 ==> forall|q: int| 0 <= q < ms.len() ==> renaming_possible(cv, task_args(#[trigger] ms[q])),
            k <= method_list.len(),
            node_queue.deep_view() == q0 + task_method_nodes(n, ms, rv, cv, pv, subtask_queue_index as int, k as int),
        decreases method_list.len() - k,
    {
        assert(ms[k as int] == method_list@[k as int].deep_view());
        let mut method = method_list[k].clone();
        let mut cnaf = clone_applied(&current_node.applied_functions);
        let ghost af = cnaf.deep_view();
        let id = cnaf.1.len();
        method.id = id;
        let ghost m = MethodModel { id, ..ms[k as int] };
        assert(method@ == m);
        let no_ids: Vec<usize> = Vec::new();
        assert(no_ids.deep_view() =~= Seq::<usize>::empty());
        cnaf.1.push((SubtaskTypes::Method(method.clone()), id, no_ids, clone_relvars(&relevant_variables)));
        let ghost cn = cnaf.deep_view();
        assert(cn.1 =~= af.1.push((SubtaskTypesModel::Method(m), id, Seq::<usize>::empty(), rv)));
        let new_rel_vars = update_relevant_variables(&current_node.problem, &method, &relevant_variables);
        let mut empty_rel_var = false;
        let mut j: usize = 0;
        while j < new_rel_vars.len()
            invariant
                j <= new_rel_vars.len(),
                empty_rel_var == exists|q: int| 0 <= q < j && (#[trigger] new_rel_vars.deep_view()[q]).2.len() == 0,
            decreases new_rel_vars.len() - j,
        {
            assert(new_rel_vars.deep_view()[j as int] == new_rel_vars@[j as int].deep_view());
            if new_rel_vars[j].2.len() == 0 {
                empty_rel_var = true;
            }
            j = j + 1;
        }
        if !empty_rel_var {
            let arg_list = task_arg_list(&method);
            let new_passing_precon = update_passing_precondition(&called, &passing_preconditions, &arg_list);
            assert(new_passing_precon.deep_view() =~= renamed_passing(pv, cv, task_args(m)));
            let mut new_called = clone_called(&called);
            new_called.2.push(0);
            proof { crate::datastructures::node::lemma_indices_view(new_called.2); }
            let ghost nc = (cv.0, cv.1, cv.2.push(0usize));
            assert(new_called.deep_view() == nc);
            let ghost nrv = new_rel_vars.deep_view();
            let ghost newp = new_passing_precon.deep_view();
            let mut new_subtask_queue = clone_partial_queue(&current_node.subtask_queue);
            let ghost qv = new_subtask_queue.deep_view();
            assert(qv == n.subtask_queue);
            if !method.ordering && method.subtasks.len() > 1 {
                let perms = generate_method_subtask_perm(&method.subtasks);
                let ghost orders = reorderings(m.subtasks, subtask_orders(m.subtasks.len() as usize));
                assert(perms.deep_view() == orders);
                let ghost base = node_queue.deep_view();
                let mut p: usize = 0;
                while p < perms.len()
                    invariant
                        orders == perms.deep_view(),
                        base == q0 + task_method_nodes(n, ms, rv, cv, pv, subtask_queue_index as int, k as int),
                        n == current_node@,
                        0 <= subtask_queue_index < n.subtask_queue.len(),
                        new_subtask_queue.len() == n.subtask_queue.len(),
                        forall|q: int| 0 <= q < n.subtask_queue.len() && q != subtask_queue_index ==> #[trigger] new_subtask_queue.deep_view()[q] == n.subtask_queue[q],
                        new_called.deep_view() == nc,
                        new_rel_vars.deep_view() == nrv,
                        new_passing_precon.deep_view() == newp,
                        cnaf.deep_view() == cn,
                        method@ == m,
                        p <= perms.len(),
                        node_queue.deep_view() == base + Seq::new(p as nat, |q: int| task_node(n, m, orders[q], nrv, nc, newp, cn, subtask_queue_index as int)),
                    decreases perms.len() - p,
                {
                    let mut method_clone = method.clone();
                    let subs = crate::datastructures::domain::clone_method_subtasks(&perms[p]);
                    assert(orders[p as int] == perms@[p as int].deep_view());
                    method_clone.subtasks = subs;
                    assert(method_clone@ == MethodModel { subtasks: orders[p as int], ..m });
                    let ghost qb = new_subtask_queue.deep_view();
                    new_subtask_queue.set(subtask_queue_index, (SubtaskTypes::Method(method_clone), clone_relvars(&new_rel_vars), clone_called(&new_called),
                        crate::datastructures::domain::clone_preconditions(&new_passing_precon)));
                    let queue_copy = clone_partial_queue(&new_subtask_queue);
                    assert forall|q: int| 0 <= q < n.subtask_queue.len() && q != subtask_queue_index implies #[trigger] new_subtask_queue.deep_view()[q] == n.subtask_queue[q] by {
                        assert(new_subtask_queue.deep_view()[q] == qb[q]);
                    }
                    assert(queue_copy.deep_view() =~= n.subtask_queue.update(subtask_queue_index as int,
                        (SubtaskTypesModel::Method(MethodModel { subtasks: orders[p as int], ..m }), nrv, nc, newp)));
                    let new_node = make_partial_node(current_node.problem.clone(), queue_copy, clone_applied(&cnaf), copy_hash_table(&current_node.hash_table),
                        current_node.hash_counter.clone(), crate::datastructures::domain::clone_strings(&current_node.goal_functions), &current_node.problem.state);
                    let ghost nb = node_queue.deep_view();
                    assert(new_node@ == task_node(n, m, orders[p as int], nrv, nc, newp, cn, subtask_queue_index as int));
                    node_queue.push(new_node);
                    assert(node_queue.deep_view() =~= nb.push(task_node(n, m, orders[p as int], nrv, nc, newp, cn, subtask_queue_index as int)));
                    assert(node_queue.deep_view() =~= base + Seq::new((p + 1) as nat, |q: int| task_node(n, m, orders[q], nrv, nc, newp, cn, subtask_queue_index as int)));
                    p = p + 1;
                }
                assert(!some_empty(nrv));
                assert(nrv == updated_relvars(n.problem, m, rv));
                assert(Seq::new(perms.len() as nat, |q: int| task_node(n, m, orders[q], nrv, nc, newp, cn, subtask_queue_index as int))
                    =~= Seq::new(orders.len(), |j: int| task_node(n, m, orders[j], nrv, nc, newp, cn, subtask_queue_index as int)));
                assert(node_queue.deep_view() =~= q0 + task_method_nodes(n, ms, rv, cv, pv, subtask_queue_index as int, k as int + 1));
            } else {
                new_subtask_queue.set(subtask_queue_index, (SubtaskTypes::Method(method), new_rel_vars, new_called, new_passing_precon));
                assert(new_subtask_queue.deep_view() =~= qv.update(subtask_queue_index as int, (SubtaskTypesModel::Method(MethodModel { subtasks: m.subtasks, ..m }), nrv, nc, newp)));
                let new_node = make_partial_node(current_node.problem.clone(), new_subtask_queue, cnaf, copy_hash_table(&current_node.hash_table),
                    current_node.hash_counter.clone(), crate::datastructures::domain::clone_strings(&current_node.goal_functions), &current_node.problem.state);
                let ghost nb = node_queue.deep_view();
                assert(new_node@ == task_node(n, m, m.subtasks, nrv, nc, newp, cn, subtask_queue_index as int));
                node_queue.push(new_node);
                assert(node_queue.deep_view() =~= nb.push(task_node(n, m, m.subtasks, nrv, nc, newp, cn, subtask_queue_index as int)));
                assert(!some_empty(nrv));
                assert(nrv == updated_relvars(n.problem, m, rv));
                assert(!(!m.ordering && m.subtasks.len() > 1));
                assert(node_queue.deep_view() =~= q0 + task_method_nodes(n, ms, rv, cv, pv, subtask_queue_index as int, k as int + 1));
            }
        } else {
            assert(some_empty(new_rel_vars.deep_view()));
        }
        k = k + 1;
    }
    true
}

} // verus!
