//! Performing a method in the totally ordered search.
use vstd::prelude::*;
use crate::datastructures::domain::{Str, Domain, DomainModel, Task, TaskModel, Action, ActionModel, Argument, ArgumentModel, Method, MethodModel, MethodSubtask, MethodSubtaskModel};
use crate::datastructures::node::{RelVars, RelVarsModel, Node, NodeModel, CalledModel, SubtaskTypes, SubtaskTypesModel, clone_called, clone_relvars, clone_applied, clone_queue, copy_hash_table, clone_indices, lemma_indices_view};
use crate::datastructures::problem::{Object, clone_state};
use crate::text::{is_var, is_variable};
use crate::toolbox::relvars::has_name;
use crate::toolbox::nodes::no_name;
use crate::toolbox::make_node;
use crate::toolbox::precondition::{names_distinct, all_variables, trimmable, trimmer_result, precon_trimmer};
use crate::toolbox::constraints::{check_constraints_result, check_constraints};
use crate::toolbox::passing_preconditions::{subtask_params, decided_passing, deciding_possible, decide_passing_preconditions};
use crate::toolbox::update::{hand_back_possible, returned_to_caller, update_vars_for_called_method};
use crate::perform::{finished_applied, finish_possible, finish_applied, var_entries, const_entries, var_entries_exec, const_entries_exec_pub};

verus! {

/// The name of a method's subtask.
pub open spec fn subtask_name(st: (MethodSubtaskModel, Seq<ArgumentModel>)) -> Str {
    match st.0 {
        MethodSubtaskModel::Task(t) => t.name,
        MethodSubtaskModel::Action(a) => a.name,
    }
}

/// The index of the first task from `k` on with the given name.
pub open spec fn find_task(tasks: Seq<TaskModel>, name: Str, k: int) -> Option<int>
    decreases tasks.len() - k,
{
    if k < 0 || k >= tasks.len() {
        None
    } else if tasks[k].name == name {
        Some(k)
    } else {
        find_task(tasks, name, k + 1)
    }
}

/// The index of the first action from `k` on with the given name.
pub open spec fn find_action(actions: Seq<ActionModel>, name: Str, k: int) -> Option<int>
    decreases actions.len() - k,
{
    if k < 0 || k >= actions.len() {
        None
    } else if actions[k].name == name {
        Some(k)
    } else {
        find_action(actions, name, k + 1)
    }
}

/// Whether an object has the given name.
pub open spec fn object_named(objects: Seq<(Str, Str, Seq<Str>)>, name: Str) -> bool {
    exists|j: int| 0 <= j < objects.len() && (#[trigger] objects[j]).0 == name
}

/// The relevant variables of a task called with the arguments `args`, over
/// the first `n`: a variable takes every relevant variable of its name, a
/// constant an entry without name holding the object.
pub open spec fn total_task_relvars(args: Seq<ArgumentModel>, rv: RelVarsModel, objects: Seq<(Str, Str, Seq<Str>)>, n: int) -> RelVarsModel
    decreases n,
{
    if n <= 0 {
        Seq::empty()
    } else {
        let p = args[n - 1].name;
        total_task_relvars(args, rv, objects, n - 1) + (if is_var(p) {
            var_entries(p, p, rv, rv.len() as int)
        } else {
            const_entries(p, no_name(), objects, objects.len() as int)
        })
    }
}

/// The relevant variables of an action with parameters `params` called with
/// the arguments `args`, over the first `n`: the entries of a variable or a
/// constant as for a task, named by the action's parameter.
pub open spec fn total_action_relvars(params: Seq<ArgumentModel>, args: Seq<ArgumentModel>, rv: RelVarsModel, objects: Seq<(Str, Str, Seq<Str>)>, n: int) -> RelVarsModel
    decreases n,
{
    if n <= 0 {
        Seq::empty()
    } else {
        let p = args[n - 1].name;
        total_action_relvars(params, args, rv, objects, n - 1) + (if n - 1 >= params.len() {
            Seq::empty()
        } else if is_var(p) {
            var_entries(p, params[n - 1].name, rv, rv.len() as int)
        } else {
            const_entries(p, params[n - 1].name, objects, objects.len() as int)
        })
    }
}

/// An argument of an action call that finds a relevant variable or an object.
pub open spec fn arg_hits(arg: Str, rv: RelVarsModel, objects: Seq<(Str, Str, Seq<Str>)>) -> bool {
    if is_var(arg) { has_name(rv, arg) } else { object_named(objects, arg) }
}

/// The entry that a method's subtask `idx` puts on the queue: the domain's
/// task of its name, or else the domain's action of its name, with their
/// relevant variables (`None` when the domain has neither).
pub open spec fn total_subtask_entry(d: DomainModel, m: MethodModel, idx: int, rv: RelVarsModel, objects: Seq<(Str, Str, Seq<Str>)>) -> Option<(SubtaskTypesModel, RelVarsModel)> {
    let st = m.subtasks[idx];
    let name = subtask_name(st);
    let args = subtask_params(st);
    match find_task(d.tasks, name, 0) {
        Some(t) => Some((SubtaskTypesModel::Task(d.tasks[t]), total_task_relvars(args, rv, objects, args.len() as int))),
        None => match find_action(d.actions, name, 0) {
            Some(a) => Some((SubtaskTypesModel::Action(d.actions[a]),
                total_action_relvars(d.actions[a].parameters, args, rv, objects, args.len() as int))),
            None => None,
        },
    }
}

fn total_task_relvars_exec(args: &Vec<Argument>, rv: &RelVars, objects: &Vec<Object>) -> (res: RelVars)
    ensures
        res.deep_view() == total_task_relvars(args.deep_view(), rv.deep_view(), objects.deep_view(), args.len() as int),
{
    let ghost a = args.deep_view();
    let mut res: RelVars = Vec::new();
    let mut n: usize = 0;
    while n < args.len()
        invariant
            a == args.deep_view(),
            n <= args.len(),
            res.deep_view() == total_task_relvars(a, rv.deep_view(), objects.deep_view(), n as int),
        decreases args.len() - n,
    {
        assert(a[n as int] == args@[n as int]@);
        let p = &args[n].name;
        if is_variable(p) {
            var_entries_exec(p, p, rv, &mut res);
        } else {
            let nn = no_name_exec();
            const_entries_exec_pub(p, &nn, objects, &mut res);
        }
        n = n + 1;
    }
    res
}

fn total_action_relvars_exec(params: &Vec<Argument>, args: &Vec<Argument>, rv: &RelVars, objects: &Vec<Object>) -> (res: RelVars)
    ensures
        res.deep_view() == total_action_relvars(params.deep_view(), args.deep_view(), rv.deep_view(), objects.deep_view(), args.len() as int),
{
    let ghost a = args.deep_view();
    let ghost ps = params.deep_view();
    let mut res: RelVars = Vec::new();
    let mut n: usize = 0;
    while n < args.len()
        invariant
            a == args.deep_view(),
            ps == params.deep_view(),
            n <= args.len(),
            res.deep_view() == total_action_relvars(ps, a, rv.deep_view(), objects.deep_view(), n as int),
        decreases args.len() - n,
    {
        assert(a[n as int] == args@[n as int]@);
        if n < params.len() {
            assert(ps[n as int] == params@[n as int]@);
            let p = &args[n].name;
            if is_variable(p) {
                var_entries_exec(p, &params[n].name, rv, &mut res);
            } else {
                const_entries_exec_pub(p, &params[n].name, objects, &mut res);
            }
        } else {
            assert(res.deep_view() =~= total_action_relvars(ps, a, rv.deep_view(), objects.deep_view(), n as int + 1));
        }
        n = n + 1;
    }
    res
}

fn no_name_exec() -> (res: String)
    ensures
        res@ == no_name(),
{
    let s = crate::text::string_of("no name");
    proof { reveal_strlit("no name"); }
    s
}

pub(crate) fn find_task_exec(tasks: &Vec<Task>, name: &String) -> (res: Option<usize>)
    ensures
        match res {
            Some(k) => k < tasks.len() && find_task(tasks.deep_view(), name@, 0) == Some(k as int),
            None => find_task(tasks.deep_view(), name@, 0) is None,
        },
{
    let ghost ts = tasks.deep_view();
    let mut k: usize = 0;
    while k < tasks.len()
        invariant
            ts == tasks.deep_view(),
            k <= tasks.len(),
            find_task(ts, name@, 0) == find_task(ts, name@, k as int),
        decreases tasks.len() - k,
    {
        assert(ts[k as int] == tasks@[k as int]@);
        if tasks[k].name == *name {
            return Some(k);
        }
        k = k + 1;
    }
    None
}

pub(crate) fn find_action_exec(actions: &Vec<Action>, name: &String) -> (res: Option<usize>)
    ensures
        match res {
            Some(k) => k < actions.len() && find_action(actions.deep_view(), name@, 0) == Some(k as int),
            None => find_action(actions.deep_view(), name@, 0) is None,
        },
{
    let ghost acts = actions.deep_view();
    let mut k: usize = 0;
    while k < actions.len()
        invariant
            acts == actions.deep_view(),
            k <= actions.len(),
            find_action(acts, name@, 0) == find_action(acts, name@, k as int),
        decreases actions.len() - k,
    {
        assert(acts[k as int] == actions@[k as int]@);
        if actions[k].name == *name {
            return Some(k);
        }
        k = k + 1;
    }
    None
}

pub(crate) fn subtask_entry_exec(domain: &Domain, subtask: &(MethodSubtask, Vec<Argument>), rv: &RelVars, objects: &Vec<Object>) -> (res: Option<(SubtaskTypes, RelVars)>)
    ensures
        res.deep_view() == ({
            let st = subtask.deep_view();
            let name = subtask_name(st);
            let args = subtask_params(st);
            let d = domain@;
            match find_task(d.tasks, name, 0) {
                Some(t) => Some((SubtaskTypesModel::Task(d.tasks[t]), total_task_relvars(args, rv.deep_view(), objects.deep_view(), args.len() as int))),
                None => match find_action(d.actions, name, 0) {
                    Some(a) => Some((SubtaskTypesModel::Action(d.actions[a]),
                        total_action_relvars(d.actions[a].parameters, args, rv.deep_view(), objects.deep_view(), args.len() as int))),
                    None => None,
                },
            }
        }),
{
    let (name, args) = match &subtask.0 {
        MethodSubtask::Task(t) => (&t.name, &t.parameters),
        MethodSubtask::Action(a) => (&a.name, &a.parameters),
    };
    assert(name@ == subtask_name(subtask.deep_view()));
    assert(args.deep_view() == subtask_params(subtask.deep_view()));
    match find_task_exec(&domain.tasks, name) {
        Some(t) => {
            assert(domain@.tasks[t as int] == domain.tasks@[t as int]@);
            let vars = total_task_relvars_exec(args, rv, objects);
            Some((SubtaskTypes::Task(domain.tasks[t].clone()), vars))
        },
        None => match find_action_exec(&domain.actions, name) {
            Some(a) => {
                assert(domain@.actions[a as int] == domain.actions@[a as int]@);
                let vars = total_action_relvars_exec(&domain.actions[a].parameters, args, rv, objects);
                Some((SubtaskTypes::Action(domain.actions[a].clone()), vars))
            },
            None => None,
        },
    }
}

/// The node with which a method moves on to its subtask `idx`: the subtask
/// (if the domain knows its name) goes onto the queue with its relevant
/// variables and is listed in the method's record, the method goes onto the
/// call stack with its variables and passed-on preconditions, and the node
/// carries the preconditions passed on to the subtask.
pub open spec fn total_next_node(n: NodeModel, d: DomainModel, m: MethodModel, rv: RelVarsModel, c1: CalledModel, idx: int) -> NodeModel {
    let newp = decided_passing(n.passing_preconditions, m, idx, rv, n.problem);
    let c3 = (c1.0.push(true), c1.1.push((m, rv, n.passing_preconditions, n.problem.state)), c1.2.push((idx + 1) as usize));
    match total_subtask_entry(d, m, idx, rv, n.problem.objects) {
        Some(e) => {
            let id = m.id as int;
            let af = n.applied_functions;
            let af2 = (af.0, af.1.update(id, (af.1[id].0, af.1[id].1, af.1[id].2.push(af.1.len() as usize), af.1[id].3)));
            NodeModel { subtask_queue: n.subtask_queue.push(e), called: c3, applied_functions: af2, passing_preconditions: newp, ..n }
        },
        None => NodeModel { called: c3, passing_preconditions: newp, ..n },
    }
}

/// The node for a copy of the method, without preconditions or constraints,
/// that starts over with other relevant variables its constraints allow.
pub open spec fn variant_node(n: NodeModel, m: MethodModel, rv: RelVarsModel) -> NodeModel {
    NodeModel {
        subtask_queue: n.subtask_queue.push((SubtaskTypesModel::Method(MethodModel { precondition: None, constraints: None, ..m }), rv)),
        called: (n.called.0, n.called.1, n.called.2.push(0usize)),
        ..n
    }
}

/// The lists of relevant variables a method goes on with: at its first
/// subtask its preconditions must be cleared, and its constraints may leave
/// several lists, the last of which the method itself goes on with (`None`
/// when the preconditions fail or the constraints leave nothing).
pub open spec fn total_entry(n: NodeModel, m: MethodModel, rv: RelVarsModel) -> Option<Seq<RelVarsModel>> {
    let idx = n.called.2.last();
    let t = if idx == 0 && m.precondition is Some {
        trimmer_result(rv, m.precondition.unwrap(), n.problem.objects, n.problem.state)
    } else {
        (rv, true)
    };
    if !t.1 {
        None
    } else if idx == 0 && m.constraints is Some {
        let l = check_constraints_result(t.0, m.constraints.unwrap());
        if l.len() == 0 { None } else { Some(l) }
    } else {
        Some(seq![t.0])
    }
}

/// What `perform_method` pushes: a node for each other list of relevant
/// variables the constraints allow, then the node with which the method goes
/// on. A method past its last subtask records what it found and hands back to
/// its caller, or, called by no method, leaves the node as it is; otherwise
/// it moves on to its next subtask. A method without subtasks hands back at once.
pub open spec fn total_method_result(n: NodeModel, d: DomainModel, m: MethodModel, rv: RelVarsModel) -> Seq<NodeModel> {
    let idx = n.called.2.last() as int;
    let c1 = (n.called.0, n.called.1, n.called.2.drop_last());
    let c2 = (c1.0.drop_last(), c1.1, c1.2);
    let n0 = NodeModel { called: c1, ..n };
    match total_entry(n, m, rv) {
        None => Seq::empty(),
        Some(l) => {
            let rv2 = l.last();
            let variants = Seq::new((l.len() - 1) as nat, |j: int| variant_node(n0, m, l[j]));
            let last = if m.subtasks.len() > 0 && idx < m.subtasks.len() {
                total_next_node(n0, d, m, rv2, c1, idx)
            } else {
                let af = if m.subtasks.len() > 0 { finished_applied(n.applied_functions, m, rv2) } else { n.applied_functions };
                let n1 = NodeModel { applied_functions: af, called: c2, ..n };
                if c1.0.last() { returned_to_caller(n1, m, rv2) } else { n1 }
            };
            variants.push(last)
        },
    }
}

/// The inputs on which `perform_method` reads nothing that is missing.
pub open spec fn total_method_possible(n: NodeModel, d: DomainModel, m: MethodModel, rv: RelVarsModel) -> bool {
    let idx = n.called.2.last() as int;
    let c1 = (n.called.0, n.called.1, n.called.2.drop_last());
    let c2 = (c1.0.drop_last(), c1.1, c1.2);
    &&& n.called.2.len() > 0
    &&& idx == 0 && m.precondition is Some ==> {
        &&& names_distinct(rv)
        &&& all_variables(rv)
        &&& forall|k: int| 0 <= k < m.precondition.unwrap().len() ==> trimmable(#[trigger] m.precondition.unwrap()[k], rv, n.problem.state)
    }
    &&& idx == 0 && m.constraints is Some ==> rv.len() > 0
    &&& total_entry(n, m, rv) is Some ==> {
        let rv2 = total_entry(n, m, rv).unwrap().last();
        &&& m.subtasks.len() > 0 ==> idx <= m.subtasks.len()
        &&& (m.subtasks.len() == 0 || idx == m.subtasks.len()) ==> {
            &&& c1.0.len() > 0
            &&& c1.0.last() ==> hand_back_possible(m, rv2, c2)
        }
        &&& m.subtasks.len() > 0 && idx == m.subtasks.len() ==> finish_possible(n.applied_functions, m)
        &&& m.subtasks.len() > 0 && idx < m.subtasks.len() ==> {
            let st = m.subtasks[idx];
            let args = subtask_params(st);
            &&& deciding_possible(n.passing_preconditions, m, idx, rv2, n.problem)
            &&& total_subtask_entry(d, m, idx, rv2, n.problem.objects) is Some ==> m.id < n.applied_functions.1.len()
            &&& find_task(d.tasks, subtask_name(st), 0) is None && find_action(d.actions, subtask_name(st), 0) is Some ==>
                forall|j: int| d.actions[find_action(d.actions, subtask_name(st), 0).unwrap()].parameters.len() <= j < args.len()
                    ==> !arg_hits((#[trigger] args[j]).name, rv2, n.problem.objects)
        }
    }
}

/// Perform a method: check its preconditions and constraints at its first
/// subtask, push a node for every other choice its constraints leave, and
/// either move on to its next subtask or, when it is done, record what it
/// found and return to its caller.
#[verifier::rlimit(80)]
pub fn perform_method(node_queue: &mut Vec<Node>, domain: &Domain, current_node: Node, method: Method, relevant_variables: RelVars)
    requires
        total_method_possible(current_node@, domain@, method@, relevant_variables.deep_view()),
    ensures
        final(node_queue).deep_view() == old(node_queue).deep_view() + total_method_result(current_node@, domain@, method@, relevant_variables.deep_view()),
{
    let ghost n = current_node@;
    let ghost d = domain@;
    let ghost m = method@;
    let ghost rv0 = relevant_variables.deep_view();
    let ghost q0 = node_queue.deep_view();
    let mut current_node = current_node;
    let mut relevant_variables = relevant_variables;
    let current_subtask_index = current_node.called.2.pop().unwrap();
    let ghost c1 = (n.called.0, n.called.1, n.called.2.drop_last());
    let ghost n0 = NodeModel { called: c1, ..n };
    proof { lemma_indices_view(current_node.called.2); }
    assert(current_node.called.2@ =~= n.called.2.drop_last());
    assert(current_node@ == n0);
    assert(current_subtask_index == n.called.2.last());
    let ghost mut lst: Seq<RelVarsModel> = seq![rv0];
    if current_subtask_index == 0 {
        match &method.precondition {
            Some(precondition) => {
                assert(m.precondition == Some(precondition.deep_view()));
                let (new_relevant_variables, preconditions_cleared) = precon_trimmer(relevant_variables, precondition, &current_node.problem, &current_node.problem.state);
                if preconditions_cleared {
                    relevant_variables = new_relevant_variables;
                } else {
                    assert(total_entry(n, m, rv0) is None);
                    assert(node_queue.deep_view() =~= q0 + total_method_result(n, d, m, rv0));
                    return;
                }
            },
            None => {},
        }
        let ghost rv1 = relevant_variables.deep_view();
        proof { lst = seq![rv1]; }
        match &method.constraints {
            Some(constraints) => {
                assert(m.constraints == Some(constraints.deep_view()));
                let mut list = check_constraints(&relevant_variables, constraints);
                if list.len() == 0 {
                    assert(total_entry(n, m, rv0) is None);
                    assert(node_queue.deep_view() =~= q0 + total_method_result(n, d, m, rv0));
                    return;
                }
                proof { lst = list.deep_view(); }
                assert(total_entry(n, m, rv0) == Some(lst));
                relevant_variables = list.pop().unwrap();
                assert(relevant_variables.deep_view() == lst.last());
                assert(list.deep_view() =~= lst.drop_last());
                let mut j: usize = 0;
                while j < list.len()
                    invariant
                        list.deep_view() == lst.drop_last(),
                        current_node@ == n0,
                        m == method@,
                        j <= list.len(),
                        node_queue.deep_view() == q0 + Seq::new(j as nat, |q: int| variant_node(n0, m, lst[q])),
                    decreases list.len() - j,
                {
                    let mut new_method = method.clone();
                    new_method.precondition = None;
                    new_method.constraints = None;
                    let mut new_sq = clone_queue(&current_node.subtask_queue);
                    let ghost sq0 = new_sq.deep_view();
                    let vars = clone_relvars(&list[j]);
                    assert(vars.deep_view() == lst[j as int]);
                    new_sq.push((SubtaskTypes::Method(new_method), vars));
                    assert(new_sq.deep_view() =~= sq0.push((SubtaskTypesModel::Method(MethodModel { precondition: None, constraints: None, ..m }), lst[j as int])));
                    let mut new_called = clone_called(&current_node.called);
                    new_called.2.push(0);
                    proof { lemma_indices_view(new_called.2); }
                    assert(new_called.deep_view() == (c1.0, c1.1, c1.2.push(0usize)));
                    let new_node = make_node(current_node.problem.clone(), new_sq, new_called, clone_applied(&current_node.applied_functions),
                        copy_hash_table(&current_node.hash_table), crate::datastructures::domain::clone_preconditions(&current_node.passing_preconditions),
                        crate::datastructures::domain::clone_strings(&current_node.goal_functions));
                    assert(new_node@ == variant_node(n0, m, lst[j as int]));
                    let ghost nq = node_queue.deep_view();
                    node_queue.push(new_node);
                    proof {
                        let s0 = Seq::new(j as nat, |q: int| variant_node(n0, m, lst[q]));
                        let s1 = Seq::new((j + 1) as nat, |q: int| variant_node(n0, m, lst[q]));
                        assert(s1 =~= s0.push(variant_node(n0, m, lst[j as int])));
                        assert(node_queue.deep_view() =~= nq.push(variant_node(n0, m, lst[j as int])));
                        assert(q0 + s1 =~= (q0 + s0).push(variant_node(n0, m, lst[j as int])));
                    }
                    j = j + 1;
                }
            },
            None => {
                assert(total_entry(n, m, rv0) == Some(lst));
            },
        }
    } else {
        assert(total_entry(n, m, rv0) == Some(lst));
    }
    let ghost rv2 = relevant_variables.deep_view();
    let ghost variants = Seq::new((lst.len() - 1) as nat, |j: int| variant_node(n0, m, lst[j]));
    assert(total_entry(n, m, rv0) == Some(lst));
    assert(rv2 == lst.last());
    assert(node_queue.deep_view() =~= q0 + variants);
    let ghost q1 = node_queue.deep_view();
    let ghost pushed: NodeModel;
    if method.subtasks.len() > 0 && current_subtask_index < method.subtasks.len() {
        let idx = current_subtask_index;
        let new_passing_preconditions = decide_passing_preconditions(&mut current_node.passing_preconditions, &method, idx, &relevant_variables, &current_node.problem);
        assert(current_node@ == n0);
        let mut new_sq = clone_queue(&current_node.subtask_queue);
        let mut applied = clone_applied(&current_node.applied_functions);
        let subtask = &method.subtasks[idx];
        assert(m.subtasks[idx as int] == subtask.deep_view());
        let entry = subtask_entry_exec(domain, subtask, &relevant_variables, &current_node.problem.objects);
        let ghost af = n.applied_functions;
        match entry {
            Some(e) => {
                let ghost sq0 = new_sq.deep_view();
                new_sq.push(e);
                assert(new_sq.deep_view() =~= sq0.push(total_subtask_entry(d, m, idx as int, rv2, n.problem.objects).unwrap()));
                let length = applied.1.len();
                let id = method.id;
                assert(af.1[id as int] == applied.1@[id as int].deep_view());
                let mut entry_ids = clone_indices(&applied.1[id].2);
                entry_ids.push(length);
                proof { lemma_indices_view(entry_ids); }
                assert(entry_ids.deep_view() =~= af.1[id as int].2.push(length));
                let new_entry = (applied.1[id].0.clone(), applied.1[id].1, entry_ids, clone_relvars(&applied.1[id].3));
                applied.1.set(id, new_entry);
                assert(applied.1.deep_view() =~= af.1.update(id as int, (af.1[id as int].0, af.1[id as int].1, af.1[id as int].2.push(length), af.1[id as int].3)));
            },
            None => {},
        }
        let mut new_called = clone_called(&current_node.called);
        new_called.0.push(true);
        new_called.1.push((method.clone(), relevant_variables, crate::datastructures::domain::clone_preconditions(&current_node.passing_preconditions), clone_state(&current_node.problem.state)));
        new_called.2.push(idx + 1);
        proof { lemma_indices_view(new_called.2); }
        assert(new_called.0@ =~= c1.0.push(true));
        assert(new_called.1.deep_view() =~= c1.1.push((m, rv2, n.passing_preconditions, n.problem.state)));
        assert(new_called.2@ =~= c1.2.push((idx + 1) as usize));
        let new_node = make_node(current_node.problem.clone(), new_sq, new_called, applied,
            copy_hash_table(&current_node.hash_table), new_passing_preconditions,
            crate::datastructures::domain::clone_strings(&current_node.goal_functions));
        let ghost target = total_next_node(n0, d, m, rv2, c1, idx as int);
        assert(new_node@.called == target.called);
        assert(new_node@.passing_preconditions == target.passing_preconditions);
        assert(new_node@.subtask_queue == target.subtask_queue);
        assert(new_node@.applied_functions == target.applied_functions);
        assert(new_node@ == target);
        proof { pushed = new_node@; }
        node_queue.push(new_node);
    } else {
        if method.subtasks.len() > 0 {
            finish_applied(&mut current_node.applied_functions, &method, &relevant_variables);
        }
        let first_method = current_node.called.0.pop().unwrap();
        assert(current_node.called.0@ =~= c1.0.drop_last());
        assert(current_node.called.0.deep_view() =~= c1.0.drop_last());
        assert(current_node@.called == (c1.0.drop_last(), c1.1, c1.2));
        assert(current_node@.applied_functions == (if m.subtasks.len() > 0 { finished_applied(n.applied_functions, m, rv2) } else { n.applied_functions }));
        let ghost c2 = (c1.0.drop_last(), c1.1, c1.2);
        let ghost af1 = if m.subtasks.len() > 0 { finished_applied(n.applied_functions, m, rv2) } else { n.applied_functions };
        assert(current_node@ == (NodeModel { applied_functions: af1, called: c2, ..n }));
        assert(first_method == c1.0.last());
        if first_method {
            let new_node = update_vars_for_called_method(current_node, &method, &relevant_variables);
            proof { pushed = new_node@; }
            node_queue.push(new_node);
        } else {
            proof { pushed = current_node@; }
            node_queue.push(current_node);
        }
    }
    assert(node_queue.deep_view() =~= q1.push(pushed));
    assert(total_method_result(n, d, m, rv0) =~= variants.push(pushed));
}

} // verus!
