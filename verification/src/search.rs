//! The depth-first search: the start of a search, and the decisions of
//! each of its steps. The loop that repeats the steps, watches the clock
//! and writes the plan belongs to the caller.
use vstd::prelude::*;
use std::collections::{HashMap, HashSet};
use crate::datastructures::domain::{Str, Domain, DomainModel, Precondition, PreconditionModel, clone_strings};
use crate::datastructures::node::{Node, NodeModel, PartialNode, PartialNodeModel, RelVars, RelVarsModel, Called, SubtaskTypes, SubtaskTypesModel, AppliedFunctions};
use crate::datastructures::problem::{Problem, ProblemModel, HtnModel, clone_state};
use crate::text::string_of;
use crate::toolbox::nodes::{htn_relvars, empty_called, prep_htn_subtasks, prep_partial_htn_subtasks};
use crate::toolbox::{make_node, make_partial_node};
use crate::toolbox::update::{updated_objects, update_objects};
use crate::toolbox::domain_ops::{table_filed, reduced, goal_actions, table_methods_calling, reduce_domain, goal_oriented_finder};
use crate::toolbox::nodes::{partial_hashable, partial_hash_result, partial_hash_state};
use crate::toolbox::{goal_arities_fit, goal_reached, check_goal_condition};
use crate::datastructures::domain::clone_preconditions;
use crate::datastructures::node::{clone_relvars, clone_called};
use crate::perform::partial::htn::{partial_htn_possible, partial_htn_result, perform_htn_task};
use crate::perform::partial::task::{partial_task_possible, partial_task_result, perform_task};
use crate::perform::partial::method::{partial_method_possible, partial_method_result, perform_method};
use crate::perform::partial::action::{partial_action_possible, partial_action_result, perform_action_cdcl};
use crate::toolbox::nodes::node_hash;
use crate::toolbox::{hash_state, method_calls_method, table_calls_method};
use crate::perform::htn::{total_htn_possible, total_htn_result, perform_htn_task as perform_total_htn_task};
use crate::perform::method::{total_method_possible, total_method_result, perform_method as perform_total_method};
use crate::perform::action::{total_cdcl_possible, total_cdcl_result, perform_action_cdcl as perform_total_action_cdcl};
use crate::readiness::{total_htn_ready, total_method_ready, total_cdcl_ready};
use crate::readiness::{hashable_exec, goal_fits_exec, htn_ready, task_ready, method_ready, action_ready};

verus! {

/// A sequence in reverse order.
pub open spec fn reversed<A>(s: Seq<A>) -> Seq<A> {
    Seq::new(s.len(), |i: int| s[s.len() - 1 - i])
}

/// The problem a search starts from: the objects know all their types, and
/// the tasks of the initial network are in reverse order.
pub open spec fn start_problem(p: ProblemModel, d: DomainModel) -> ProblemModel {
    ProblemModel {
        objects: updated_objects(p.objects, d.constants, d.types),
        htn: HtnModel { subtasks: reversed(p.htn.subtasks), ..p.htn },
        ..p
    }
}

/// The entries for the tasks of the initial network, with their relevant variables.
pub open spec fn htn_entries(p: ProblemModel) -> Seq<(SubtaskTypesModel, RelVarsModel)> {
    Seq::new(p.htn.subtasks.len(), |i: int| (SubtaskTypesModel::HtnTask(p.htn.subtasks[i]),
        htn_relvars(p.htn.subtasks[i].2, p.htn.parameters, p.objects)))
}

/// The methods that lead to the goal, when there is one.
pub open spec fn goal_methods(p: ProblemModel, d: DomainModel) -> Seq<Str> {
    match p.goal {
        Some(g) => table_methods_calling(d.methods, goal_actions(d.actions, g)),
        None => Seq::empty(),
    }
}

/// The domain a search runs in: without the types no object has, the
/// actions, tasks and methods whose parameters have no objects, and, with a
/// goal, the actions and methods that cannot serve it.
pub open spec fn search_domain(p: ProblemModel, d: DomainModel) -> DomainModel {
    let p1 = start_problem(p, d);
    reduced(d, p1.objects, p.goal)
}

/// The applied functions of a new search: only the root, which has called nothing.
pub open spec fn root_applied() -> crate::datastructures::node::AppliedFunctionsModel {
    (("root"@, Seq::empty()), Seq::empty())
}

/// The first node of the totally ordered search.
pub open spec fn initial_node(p: ProblemModel, d: DomainModel) -> NodeModel {
    let p1 = start_problem(p, d);
    NodeModel {
        problem: p1,
        subtask_queue: htn_entries(p1),
        called: empty_called(),
        applied_functions: root_applied(),
        hash_table: Set::empty(),
        passing_preconditions: Seq::empty(),
        goal_functions: goal_methods(p, d),
    }
}

/// The first node of the partially ordered search: every task of the initial
/// network is an entry with an empty call stack and no passed-on preconditions.
pub open spec fn initial_partial_node(p: ProblemModel, d: DomainModel) -> PartialNodeModel {
    let p1 = start_problem(p, d);
    PartialNodeModel {
        problem: p1,
        subtask_queue: Seq::new(p1.htn.subtasks.len(), |i: int| (htn_entries(p1)[i].0, htn_entries(p1)[i].1, empty_called(), Seq::<PreconditionModel>::empty())),
        applied_functions: root_applied(),
        hash_table: Set::empty(),
        hash_counter: Map::empty(),
        goal_functions: goal_methods(p, d),
        original_state: p1.state,
    }
}

fn start_problem_exec(problem: &Problem, domain: &Domain) -> (res: Problem)
    ensures
        res@ == start_problem(problem@, domain@),
{
    let mut new_problem = update_objects(problem.clone(), domain);
    let ghost s = new_problem.htn.subtasks.deep_view();
    let mut rev: Vec<(String, String, Vec<String>)> = Vec::new();
    let mut k: usize = new_problem.htn.subtasks.len();
    while k > 0
        invariant
            s == new_problem.htn.subtasks.deep_view(),
            k <= s.len(),
            rev.deep_view() == reversed(s).take(s.len() - k),
        decreases k,
    {
        k = k - 1;
        let e = &new_problem.htn.subtasks[k];
        assert(s[k as int] == e.deep_view());
        let ghost before = rev.deep_view();
        rev.push((e.0.clone(), e.1.clone(), clone_strings(&e.2)));
        assert(rev.deep_view() =~= reversed(s).take(s.len() - k));
    }
    assert(reversed(s).take(s.len() as int) =~= reversed(s));
    new_problem.htn.subtasks = rev;
    new_problem
}

fn goal_methods_exec(problem: &Problem, domain: &Domain) -> (res: Vec<String>)
    ensures
        res.deep_view() == goal_methods(problem@, domain@),
{
    match &problem.goal {
        Some(g) => goal_oriented_finder(domain, clone_state(g)),
        None => {
            let v: Vec<String> = Vec::new();
            assert(v.deep_view() =~= Seq::<Str>::empty());
            v
        },
    }
}

fn root_applied_exec() -> (res: AppliedFunctions)
    ensures
        res.deep_view() == root_applied(),
{
    let ids: Vec<usize> = Vec::new();
    let entries: Vec<(SubtaskTypes, usize, Vec<usize>, RelVars)> = Vec::new();
    let res = ((string_of("root"), ids), entries);
    assert(res.0.1.deep_view() =~= Seq::<usize>::empty());
    assert(res.1.deep_view() =~= Seq::<(SubtaskTypesModel, usize, Seq<usize>, RelVarsModel)>::empty());
    res
}

/// Prepares the totally ordered search of a problem: the objects learn all
/// their types, the tasks of the initial network go onto the first node's
/// queue (the first task on top), the domain is reduced to what can serve,
/// and the methods leading to the goal are noted. Gives the queue with the
/// first node, and the domain to search in.
pub fn stoppable_depth_first(problem: &Problem, domain: &Domain) -> (res: (Vec<Node>, Domain))
    requires
        problem@.goal is Some ==> table_filed(domain@.methods),
    ensures
        res.0.deep_view() == seq![initial_node(problem@, domain@)],
        res.1@ == search_domain(problem@, domain@),
{
    let new_problem = start_problem_exec(problem, domain);
    let ghost p1 = new_problem@;
    let mut htn_subtask_queue: Vec<(SubtaskTypes, RelVars)> = Vec::new();
    let mut k: usize = 0;
    while k < new_problem.htn.subtasks.len()
        invariant
            p1 == new_problem@,
            k <= new_problem.htn.subtasks.len(),
            htn_subtask_queue.deep_view() == htn_entries(p1).take(k as int),
        decreases new_problem.htn.subtasks.len() - k,
    {
        assert(p1.htn.subtasks[k as int] == new_problem.htn.subtasks@[k as int].deep_view());
        prep_htn_subtasks(&mut htn_subtask_queue, &new_problem.htn.subtasks[k], &new_problem);
        assert(htn_subtask_queue.deep_view() =~= htn_entries(p1).take(k as int + 1));
        k = k + 1;
    }
    assert(htn_entries(p1).take(k as int) =~= htn_entries(p1));
    let new_domain = reduce_domain(domain, &new_problem);
    let function_list = goal_methods_exec(problem, domain);
    let called: Called = (Vec::new(), Vec::new(), Vec::new());
    assert(called.deep_view() =~= empty_called());
    let no_passing: Vec<Precondition> = Vec::new();
    assert(no_passing.deep_view() =~= Seq::<PreconditionModel>::empty());
    let node = make_node(new_problem, htn_subtask_queue, called, root_applied_exec(), HashSet::new(), no_passing, function_list);
    let mut queue: Vec<Node> = Vec::new();
    queue.push(node);
    assert(queue.deep_view() =~= seq![initial_node(problem@, domain@)]);
    (queue, new_domain)
}

/// Prepares the partially ordered search of a problem, as
/// `stoppable_depth_first` does: every task of the initial network becomes an
/// entry of the first node's queue, with an empty call stack.
pub fn stoppable_depth_first_partial(problem: &Problem, domain: &Domain) -> (res: (Vec<PartialNode>, Domain))
    requires
        problem@.goal is Some ==> table_filed(domain@.methods),
    ensures
        res.0.deep_view() == seq![initial_partial_node(problem@, domain@)],
        res.1@ == search_domain(problem@, domain@),
{
    let new_problem = start_problem_exec(problem, domain);
    let ghost p1 = new_problem@;
    let ghost target = initial_partial_node(problem@, domain@).subtask_queue;
    let mut htn_subtask_queue: Vec<(SubtaskTypes, RelVars, Called, Vec<Precondition>)> = Vec::new();
    let mut k: usize = 0;
    while k < new_problem.htn.subtasks.len()
        invariant
            p1 == new_problem@,
            p1 == start_problem(problem@, domain@),
            target == initial_partial_node(problem@, domain@).subtask_queue,
            k <= new_problem.htn.subtasks.len(),
            htn_subtask_queue.deep_view() == target.take(k as int),
        decreases new_problem.htn.subtasks.len() - k,
    {
        assert(p1.htn.subtasks[k as int] == new_problem.htn.subtasks@[k as int].deep_view());
        prep_partial_htn_subtasks(&mut htn_subtask_queue, &new_problem.htn.subtasks[k], &new_problem);
        assert(htn_subtask_queue.deep_view() =~= target.take(k as int + 1));
        k = k + 1;
    }
    assert(target.take(k as int) =~= target);
    let new_domain = reduce_domain(domain, &new_problem);
    let function_list = goal_methods_exec(problem, domain);
    let state = clone_state(&new_problem.state);
    let node = make_partial_node(new_problem, htn_subtask_queue, root_applied_exec(), HashSet::new(), HashMap::new(), function_list, &state);
    let mut queue: Vec<PartialNode> = Vec::new();
    queue.push(node);
    assert(queue.deep_view() =~= seq![initial_partial_node(problem@, domain@)]);
    (queue, new_domain)
}

/// What a step of the search ended with.
#[derive(Debug, Clone, Copy, PartialEq, Eq, Structural)]
pub enum StepKind {
    /// The queue was empty: there is no plan.
    Exhausted,
    /// A node with nothing left to do reached the goal.
    Solved,
    /// The search goes on.
    Continue,
    /// The node holds something its operation cannot read.
    Malformed,
}

/// What performing the entry `t` of a node's queue pushes, and whether the
/// entry was completed (`None` when the operation cannot read what it needs).
pub open spec fn step_dispatch(n: PartialNodeModel, d: DomainModel, t: int) -> Option<(Seq<PartialNodeModel>, bool)> {
    let e = n.subtask_queue[t];
    match e.0 {
        SubtaskTypesModel::HtnTask(h) => if partial_htn_possible(n, d, h, e.1, t) {
            Some((partial_htn_result(n, d, h, e.1, e.2, t, e.3).0, true))
        } else {
            None
        },
        SubtaskTypesModel::Task(tk) => if partial_task_possible(n, d, tk, e.1, e.2, e.3, t) {
            Some((partial_task_result(n, d, tk, e.1, e.2, e.3, t), true))
        } else {
            None
        },
        SubtaskTypesModel::Method(m) => if partial_method_possible(n, m, e.1, e.2, t, e.3) {
            Some(partial_method_result(n, m, e.1, e.2, t, e.3))
        } else {
            None
        },
        SubtaskTypesModel::Action(a) => if partial_action_possible(n, a, e.1, e.2, e.3, t) {
            Some((partial_action_result(n, a, e.1, e.2, e.3, t).0, partial_action_result(n, a, e.1, e.2, e.3, t).1))
        } else {
            None
        },
    }
}

/// The entry tried next: after a method that failed, the following entry;
/// after an action, the first entry if it succeeded and the following one if not.
pub open spec fn tried_after(kind: SubtaskTypesModel, t: usize, completed: bool) -> int {
    match kind {
        SubtaskTypesModel::Method(_) => if completed { t as int } else { t + 1 },
        SubtaskTypesModel::Action(_) => if completed { 0 } else { t + 1 },
        _ => t as int,
    }
}

/// One step of the partially ordered search: the queue after it, the index
/// of the entry to try next, how it ended and the solving node. The last
/// node is taken off the queue and its state recorded. A node with nothing
/// left to do is a plan when it reaches the goal. Otherwise, unless its
/// state was seen too often, the entry at the index (kept inside the queue)
/// is performed; a node whose entry was not completed goes back onto the
/// queue while there are other entries to try.
pub open spec fn partial_step(q: Seq<PartialNodeModel>, d: DomainModel, tried: usize, limit: usize) -> (Seq<PartialNodeModel>, usize, StepKind, Option<PartialNodeModel>) {
    if q.len() == 0 {
        (q, tried, StepKind::Exhausted, None)
    } else {
        let q1 = q.drop_last();
        let n0 = q.last();
        if !partial_hashable(n0.subtask_queue) {
            (q1, tried, StepKind::Malformed, None)
        } else {
            let hr = partial_hash_result(n0, tried, limit);
            let n = hr.0;
            let size = n.subtask_queue.len();
            if size == 0 {
                if !goal_arities_fit(n.problem.state, n.problem.goal) {
                    (q1, tried, StepKind::Malformed, None)
                } else if goal_reached(n.problem.state, n.problem.goal) {
                    (q1, tried, StepKind::Solved, Some(n))
                } else {
                    (q1, tried, StepKind::Continue, None)
                }
            } else {
                let t1 = if tried > size - 1 { (tried - 1) as usize } else { tried };
                if hr.1 {
                    (q1, t1, StepKind::Continue, None)
                } else if t1 >= size {
                    (q1, t1, StepKind::Malformed, None)
                } else {
                    match step_dispatch(n, d, t1 as int) {
                        None => (q1, t1, StepKind::Malformed, None),
                        Some(r) => {
                            let t2 = tried_after(n.subtask_queue[t1 as int].0, t1, r.1);
                            let q2 = q1 + r.0;
                            if t2 < size && !r.1 {
                                (q2.push(n), t2 as usize, StepKind::Continue, None)
                            } else if t2 >= size {
                                (q2, 0, StepKind::Continue, None)
                            } else {
                                (q2, t2 as usize, StepKind::Continue, None)
                            }
                        },
                    }
                }
            }
        }
    }
}

/// One step of the partially ordered search (see `partial_step`): takes the
/// last node off the queue and either recognises a plan or performs the
/// entry of its queue at `tried_count`, updating the queue and the index.
/// The caller repeats the steps while they answer `Continue`; a solving node is handed back.
#[verifier::rlimit(80)]
pub fn partial_df_step(node_queue: &mut Vec<PartialNode>, domain: &Domain, tried_count: &mut usize, hash_limit: usize) -> (res: (StepKind, Option<PartialNode>))
    requires
        hash_limit < usize::MAX,
    ensures
        ({
            let s = partial_step(old(node_queue).deep_view(), domain@, *old(tried_count), hash_limit);
            &&& final(node_queue).deep_view() == s.0
            &&& *final(tried_count) == s.1
            &&& res.0 == s.2
            &&& match res.1 {
                Some(n) => s.3 == Some(n@),
                None => s.3 is None,
            }
        }),
{
    let ghost q0 = node_queue.deep_view();
    let ghost d = domain@;
    let ghost tried0 = *tried_count;
    let popped = node_queue.pop();
    let mut current_node = match popped {
        None => {
            return (StepKind::Exhausted, None);
        },
        Some(n) => n,
    };
    let ghost q1 = q0.drop_last();
    assert(node_queue.deep_view() =~= q1);
    assert(current_node@ == q0.last());
    if !hashable_exec(&current_node.subtask_queue) {
        return (StepKind::Malformed, None);
    }
    let state_exists = partial_hash_state(&mut current_node, *tried_count, hash_limit);
    let ghost n = current_node@;
    let sq_size = current_node.subtask_queue.len();
    if sq_size == 0 {
        if !goal_fits_exec(&current_node.problem.state, &current_node.problem.goal) {
            return (StepKind::Malformed, None);
        }
        if check_goal_condition(&current_node.problem.state, &current_node.problem.goal) {
            return (StepKind::Solved, Some(current_node));
        }
        return (StepKind::Continue, None);
    }
    if *tried_count > sq_size - 1 {
        *tried_count = *tried_count - 1;
    }
    if state_exists {
        return (StepKind::Continue, None);
    }
    if *tried_count >= sq_size {
        return (StepKind::Malformed, None);
    }
    let t = *tried_count;
    let entry = &current_node.subtask_queue[t];
    let ghost ev = n.subtask_queue[t as int];
    assert(ev == entry.deep_view());
    let kind = entry.0.clone();
    let relevant_variables = clone_relvars(&entry.1);
    let mut called = clone_called(&entry.2);
    let passing = clone_preconditions(&entry.3);
    let ghost qa = node_queue.deep_view();
    let completed = match kind {
        SubtaskTypes::HtnTask(htn) => {
            if !htn_ready(&current_node, domain, &htn, &relevant_variables, t) {
                return (StepKind::Malformed, None);
            }
            perform_htn_task(node_queue, domain, current_node.clone(), htn, relevant_variables, &mut called, t, passing)
        },
        SubtaskTypes::Task(task) => {
            if !task_ready(&current_node, domain, &task, &relevant_variables, &called, &passing, t) {
                return (StepKind::Malformed, None);
            }
            perform_task(node_queue, domain, current_node.clone(), task, relevant_variables, called, passing, t)
        },
        SubtaskTypes::Method(method) => {
            if !method_ready(&current_node, &method, &relevant_variables, &called, t, &passing) {
                return (StepKind::Malformed, None);
            }
            let res = perform_method(node_queue, domain, current_node.clone(), method, relevant_variables, called, t, passing);
            if !res {
                *tried_count = *tried_count + 1;
            }
            res
        },
        SubtaskTypes::Action(action) => {
            if !action_ready(&current_node, &action, &relevant_variables, &called, &passing, t) {
                return (StepKind::Malformed, None);
            }
            let res = perform_action_cdcl(node_queue, current_node.clone(), action, relevant_variables, &mut called, passing, t);
            if res {
                *tried_count = 0;
            } else {
                *tried_count = *tried_count + 1;
            }
            res
        },
    };
    let ghost r = step_dispatch(n, d, t as int).unwrap();
    assert(node_queue.deep_view() == q1 + r.0);
    assert(completed == r.1);
    assert(*tried_count == tried_after(ev.0, t, completed));
    if *tried_count < sq_size && !completed {
        node_queue.push(current_node);
    } else if *tried_count >= sq_size {
        *tried_count = 0;
    }
    (StepKind::Continue, None)
}

/// The limit on how often a state may recur for the next run of the
/// partially ordered search: after a run that emptied its queue, the search
/// starts over from its first node with a limit one higher (while the limit
/// stays below `usize::MAX`, which `partial_df_step` needs); after any other
/// end there is no next run.
pub fn next_hash_limit(end: StepKind, hash_limit: usize) -> (res: Option<usize>)
    ensures
        res == (if end == StepKind::Exhausted && hash_limit < usize::MAX - 1 { Some((hash_limit + 1) as usize) } else { None::<usize> }),
{
    if end == StepKind::Exhausted && hash_limit < usize::MAX - 1 {
        Some(hash_limit + 1)
    } else {
        None
    }
}

/// One step of the totally ordered search: the queue after it, how it ended
/// and the solving node. The last node is taken off the queue; unless some
/// method calls a method, a node whose state was seen before is dropped and
/// the node's state is recorded. A node with nothing left to do is a plan
/// when it reaches the goal. Otherwise the top entry of its queue is taken
/// off and performed; the totally ordered search has no operation for a
/// compound task as an entry, so such an entry ends the step as `Malformed`.
pub open spec fn total_step(q: Seq<NodeModel>, d: DomainModel) -> (Seq<NodeModel>, StepKind, Option<NodeModel>) {
    if q.len() == 0 {
        (q, StepKind::Exhausted, None)
    } else {
        let q1 = q.drop_last();
        let n0 = q.last();
        let checks = !table_calls_method(d.methods);
        if checks && n0.hash_table.contains(node_hash(n0)) {
            (q1, StepKind::Continue, None)
        } else {
            let n = if checks { NodeModel { hash_table: n0.hash_table.insert(node_hash(n0)), ..n0 } } else { n0 };
            if n.subtask_queue.len() == 0 {
                if !goal_arities_fit(n.problem.state, n.problem.goal) {
                    (q1, StepKind::Malformed, None)
                } else if goal_reached(n.problem.state, n.problem.goal) {
                    (q1, StepKind::Solved, Some(n))
                } else {
                    (q1, StepKind::Continue, None)
                }
            } else {
                let e = n.subtask_queue.last();
                let n2 = NodeModel { subtask_queue: n.subtask_queue.drop_last(), ..n };
                match e.0 {
                    SubtaskTypesModel::HtnTask(h) => if total_htn_possible(d, h, e.1) {
                        (q1 + total_htn_result(n2, d, h, e.1), StepKind::Continue, None)
                    } else {
                        (q1, StepKind::Malformed, None)
                    },
                    SubtaskTypesModel::Task(_) => (q1, StepKind::Malformed, None),
                    SubtaskTypesModel::Method(m) => if total_method_possible(n2, d, m, e.1) {
                        (q1 + total_method_result(n2, d, m, e.1), StepKind::Continue, None)
                    } else {
                        (q1, StepKind::Malformed, None)
                    },
                    SubtaskTypesModel::Action(a) => if total_cdcl_possible(n2, a, e.1) {
                        (q1 + total_cdcl_result(n2, a, e.1), StepKind::Continue, None)
                    } else {
                        (q1, StepKind::Malformed, None)
                    },
                }
            }
        }
    }
}

/// One step of the totally ordered search (see `total_step`). The caller
/// repeats the steps while they answer `Continue`; a solving node is handed back.
#[verifier::rlimit(60)]
pub fn df_step(node_queue: &mut Vec<Node>, domain: &Domain) -> (res: (StepKind, Option<Node>))
    ensures
        ({
            let s = total_step(old(node_queue).deep_view(), domain@);
            &&& final(node_queue).deep_view() == s.0
            &&& res.0 == s.1
            &&& match res.1 {
                Some(n) => s.2 == Some(n@),
                None => s.2 is None,
            }
        }),
{
    let ghost q0 = node_queue.deep_view();
    let popped = node_queue.pop();
    let mut current_node = match popped {
        None => {
            return (StepKind::Exhausted, None);
        },
        Some(n) => n,
    };
    let ghost q1 = q0.drop_last();
    assert(node_queue.deep_view() =~= q1);
    assert(current_node@ == q0.last());
    if !method_calls_method(&domain.methods) {
        if hash_state(&mut current_node) {
            return (StepKind::Continue, None);
        }
    }
    let ghost n = current_node@;
    let ghost sq = n.subtask_queue;
    match current_node.subtask_queue.pop() {
        None => {
            if !goal_fits_exec(&current_node.problem.state, &current_node.problem.goal) {
                return (StepKind::Malformed, None);
            }
            if check_goal_condition(&current_node.problem.state, &current_node.problem.goal) {
                return (StepKind::Solved, Some(current_node));
            }
            (StepKind::Continue, None)
        },
        Some((kind, relevant_variables)) => {
            assert(current_node.subtask_queue.deep_view() =~= sq.drop_last());
            assert((kind@, relevant_variables.deep_view()) == sq.last());
            match kind {
                SubtaskTypes::HtnTask(htn) => {
                    if !total_htn_ready(domain, &htn, &relevant_variables) {
                        return (StepKind::Malformed, None);
                    }
                    perform_total_htn_task(node_queue, domain, current_node, htn, relevant_variables);
                    (StepKind::Continue, None)
                },
                SubtaskTypes::Task(_) => (StepKind::Malformed, None),
                SubtaskTypes::Method(method) => {
                    if !total_method_ready(&current_node, domain, &method, &relevant_variables) {
                        return (StepKind::Malformed, None);
                    }
                    perform_total_method(node_queue, domain, current_node, method, relevant_variables);
                    (StepKind::Continue, None)
                },
                SubtaskTypes::Action(action) => {
                    if !total_cdcl_ready(&current_node, &action, &relevant_variables) {
                        return (StepKind::Malformed, None);
                    }
                    perform_total_action_cdcl(node_queue, current_node, action, relevant_variables);
                    (StepKind::Continue, None)
                },
            }
        },
    }
}

} // verus!
