//! Performing an action in the partially ordered search.
use vstd::prelude::*;
use crate::datastructures::domain::{Action, ActionModel, ArgumentModel, MethodSubtask, Precondition, PreconditionModel, clone_preconditions, clone_strings};
use crate::datastructures::node::{RelVars, RelVarsModel, PartialNode, PartialNodeModel, Called, CalledModel, SubtaskTypes, SubtaskTypesModel, clone_called, clone_relvars};
use crate::datastructures::problem::ProblemModel;
use crate::toolbox::precondition::{names_distinct, all_variables, trimmable, trimmer_result, precon_trimmer};
use crate::toolbox::passing_preconditions::{subtask_params, current_subtask, renaming_possible, renamed_precondition, update_passing_precondition};
use crate::toolbox::effect::{effects_on_state, effects_values_available, apply_effects_cdcl};
use crate::toolbox::update::{overridden, override_relvars};
use crate::toolbox::make_partial_node;

verus! {

/// A list of flags without its last one (an empty list stays empty).
pub open spec fn pop_flag(s: Seq<bool>) -> Seq<bool> {
    if s.len() > 0 { s.drop_last() } else { s }
}

/// The passed-on preconditions renamed to the action's parameters.
pub open spec fn renamed_passing(passing: Seq<PreconditionModel>, called: CalledModel, params: Seq<ArgumentModel>) -> Seq<PreconditionModel> {
    Seq::new(passing.len(), |k: int| renamed_precondition(passing[k], subtask_params(current_subtask(called)), params))
}

/// The action's own preconditions followed by the renamed passed-on ones.
pub open spec fn action_preconditions(a: ActionModel, passing: Seq<PreconditionModel>, called: CalledModel) -> Seq<PreconditionModel> {
    (if a.precondition is Some { a.precondition.unwrap() } else { Seq::empty() }) + renamed_passing(passing, called, a.parameters)
}

/// The index of the first relevant variable that does not have exactly one value, or their number.
pub open spec fn first_unsettled(rv: RelVarsModel) -> int
    decreases rv.len(),
{
    if rv.len() == 0 {
        0
    } else {
        let f = first_unsettled(rv.drop_last());
        if f < rv.len() - 1 { f } else if rv.last().2.len() != 1 { rv.len() - 1 } else { rv.len() as int }
    }
}

/// The problem after the action's effects.
pub open spec fn applied_problem(p: ProblemModel, a: ActionModel, rv: RelVarsModel) -> ProblemModel {
    ProblemModel {
        state: match a.effect {
            Some(es) => effects_on_state(p.state, es, rv),
            None => p.state,
        },
        ..p
    }
}

/// Relevant variables renamed, position by position, to parameters.
pub open spec fn renamed_to(rv: RelVarsModel, params: Seq<ArgumentModel>) -> RelVarsModel {
    Seq::new(rv.len(), |x: int| (params[x].name, rv[x].1, rv[x].2))
}

/// What `perform_action_cdcl` pushes, answers and leaves of the call stack.
/// The action's preconditions and the renamed passed-on ones are trimmed by;
/// when they are not cleared nothing happens. When a variable still has
/// several values, the action is tried again twice: without the variable's
/// last value, and with only that value. Otherwise the effects are applied,
/// the action is recorded, and the node returns to the calling method with
/// the values handed back (its state becoming the original state), or,
/// called by no method, the action leaves the queue.
pub open spec fn partial_action_result(n: PartialNodeModel, a: ActionModel, rv: RelVarsModel, called: CalledModel, passing: Seq<PreconditionModel>, sqi: int) -> (Seq<PartialNodeModel>, bool, CalledModel) {
    let t = trimmer_result(rv, action_preconditions(a, passing, called), n.problem.objects, n.problem.state);
    if !t.1 {
        (Seq::empty(), false, called)
    } else {
        let rv1 = t.0;
        let i = first_unsettled(rv1);
        if i < rv1.len() {
            let rv_a = rv1.update(i, (rv1[i].0, rv1[i].1, rv1[i].2.drop_last()));
            let rv_b = rv1.update(i, (rv1[i].0, rv1[i].1, seq![rv1[i].2.last()]));
            let node_a = PartialNodeModel { subtask_queue: n.subtask_queue.update(sqi, (SubtaskTypesModel::Action(a), rv_a, called, Seq::empty())), ..n };
            let node_b = PartialNodeModel { subtask_queue: n.subtask_queue.update(sqi, (SubtaskTypesModel::Action(a), rv_b, called, Seq::empty())), ..n };
            (seq![node_a, node_b], false, called)
        } else {
            let af = n.applied_functions;
            let af1 = (af.0, af.1.push((SubtaskTypesModel::Action(a), af.1.len() as usize, Seq::<usize>::empty(), rv1)));
            let p1 = applied_problem(n.problem, a, rv1);
            if called.1.len() != 0 {
                let caller = called.1.last();
                let c2 = (pop_flag(called.0), called.1.drop_last(), called.2);
                let sparams = subtask_params(caller.0.subtasks[called.2.last() - 1]);
                let back = overridden(caller.1, renamed_to(rv1, sparams));
                let node = PartialNodeModel {
                    problem: p1,
                    applied_functions: af1,
                    subtask_queue: n.subtask_queue.update(sqi, (SubtaskTypesModel::Method(caller.0), back, c2, caller.2)),
                    original_state: caller.3,
                    ..n
                };
                (seq![node], true, c2)
            } else {
                let node = PartialNodeModel { problem: p1, applied_functions: af1, subtask_queue: n.subtask_queue.remove(sqi), ..n };
                (seq![node], true, called)
            }
        }
    }
}

/// The inputs on which `perform_action_cdcl` reads nothing that is missing.
pub open spec fn partial_action_possible(n: PartialNodeModel, a: ActionModel, rv: RelVarsModel, called: CalledModel, passing: Seq<PreconditionModel>, sqi: int) -> bool {
    let plist = action_preconditions(a, passing, called);
    let t = trimmer_result(rv, plist, n.problem.objects, n.problem.state);
    &&& passing.len() > 0 ==> renaming_possible(called, a.parameters)
    &&& names_distinct(rv)
    &&& all_variables(rv)
    &&& forall|k: int| 0 <= k < plist.len() ==> trimmable(#[trigger] plist[k], rv, n.problem.state)
    &&& 0 <= sqi < n.subtask_queue.len()
    &&& t.1 && first_unsettled(t.0) == t.0.len() && called.1.len() != 0 ==> {
        &&& called.2.len() > 0
        &&& 1 <= called.2.last() <= called.1.last().0.subtasks.len()
        &&& t.0.len() <= subtask_params(called.1.last().0.subtasks[called.2.last() - 1]).len()
    }
}

pub(crate) proof fn lemma_first_unsettled(rv: RelVarsModel)
    ensures
        0 <= first_unsettled(rv) <= rv.len(),
        forall|k: int| 0 <= k < first_unsettled(rv) ==> (#[trigger] rv[k]).2.len() == 1,
        first_unsettled(rv) < rv.len() ==> rv[first_unsettled(rv)].2.len() != 1,
    decreases rv.len(),
{
    if rv.len() > 0 {
        lemma_first_unsettled(rv.drop_last());
        let f = first_unsettled(rv.drop_last());
        assert forall|k: int| 0 <= k < first_unsettled(rv) implies (#[trigger] rv[k]).2.len() == 1 by {
            if k < f { assert(rv.drop_last()[k] == rv[k]); }
        }
        if f < rv.len() - 1 { assert(rv.drop_last()[f] == rv[f]); }
    }
}

pub(crate) fn renamed_to_exec(rv: &RelVars, params: &Vec<crate::datastructures::domain::Argument>) -> (res: RelVars)
    requires
        rv.len() <= params.len(),
    ensures
        res.deep_view() == renamed_to(rv.deep_view(), params.deep_view()),
{
    let ghost s = rv.deep_view();
    let ghost ps = params.deep_view();
    let mut res: RelVars = Vec::new();
    let mut x: usize = 0;
    while x < rv.len()
        invariant
            s == rv.deep_view(),
            ps == params.deep_view(),
            rv.len() <= params.len(),
            x <= rv.len(),
            res.deep_view() == renamed_to(s, ps).take(x as int),
        decreases rv.len() - x,
    {
        assert(s[x as int] == rv@[x as int].deep_view());
        assert(ps[x as int] == params@[x as int].deep_view());
        let ghost before = res.deep_view();
        res.push((params[x].name.clone(), rv[x].1.clone(), clone_strings(&rv[x].2)));
        assert(res.deep_view() =~= before.push(renamed_to(s, ps)[x as int]));
        assert(renamed_to(s, ps).take(x + 1) =~= renamed_to(s, ps).take(x as int).push(renamed_to(s, ps)[x as int]));
        x = x + 1;
    }
    assert(renamed_to(s, ps).take(x as int) =~= renamed_to(s, ps));
    res
}

/// Perform an action: trim its relevant variables by its preconditions and
/// the passed-on ones, branch on a variable that still has several values,
/// and otherwise apply its effects and return to the calling method.
#[verifier::rlimit(60)]
pub fn perform_action_cdcl(node_queue: &mut Vec<PartialNode>, current_node: PartialNode, action: Action, relevant_variables: RelVars, called: &mut Called, passing_precon: Vec<Precondition>, subtask_queue_index: usize) -> (res: bool)
    requires
        partial_action_possible(current_node@, action@, relevant_variables.deep_view(), old(called).deep_view(), passing_precon.deep_view(), subtask_queue_index as int),
    ensures
        ({
            let r = partial_action_result(current_node@, action@, relevant_variables.deep_view(), old(called).deep_view(), passing_precon.deep_view(), subtask_queue_index as int);
            &&& final(node_queue).deep_view() == old(node_queue).deep_view() + r.0
            &&& res == r.1
            &&& final(called).deep_view() == r.2
        }),
{
    let ghost n = current_node@;
    let ghost a = action@;
    let ghost cv = called.deep_view();
    let ghost pv = passing_precon.deep_view();
    let ghost q0 = node_queue.deep_view();
    let ghost rv0 = relevant_variables.deep_view();
    let mut current_node = current_node;
    let new_passing_precon = update_passing_precondition(called, &passing_precon, &action.parameters);
    assert(new_passing_precon.deep_view() =~= renamed_passing(pv, cv, a.parameters));
    let mut precondition_list: Vec<Precondition> = match &action.precondition {
        Some(p) => clone_preconditions(p),
        None => Vec::new(),
    };
    let ghost own = precondition_list.deep_view();
    let mut np = new_passing_precon;
    precondition_list.append(&mut np);
    assert(precondition_list.deep_view() =~= action_preconditions(a, pv, cv));
    let (relevant_variables, cleared_precon) = precon_trimmer(relevant_variables, &precondition_list, &current_node.problem, &current_node.problem.state);
    let ghost rv1 = relevant_variables.deep_view();
    if !cleared_precon {
        return false;
    }
    proof { lemma_first_unsettled(rv1); }
    let mut i: usize = 0;
    while i < relevant_variables.len() && relevant_variables[i].2.len() == 1
        invariant
            rv1 == relevant_variables.deep_view(),
            i <= relevant_variables.len(),
            forall|k: int| 0 <= k < i ==> (#[trigger] rv1[k]).2.len() == 1,
        decreases relevant_variables.len() - i,
    {
        assert(rv1[i as int] == relevant_variables@[i as int].deep_view());
        i = i + 1;
    }
    if i < relevant_variables.len() {
        assert(rv1[i as int] == relevant_variables@[i as int].deep_view());
    }
    assert(i == first_unsettled(rv1)) by {
        let f = first_unsettled(rv1);
        if f < i { assert(rv1[f].2.len() == 1); }
        if i < f { assert(rv1[i as int].2.len() == 1); }
    }
    if i < relevant_variables.len() {
        // The variable still has several values: try without its last value, and with only it.
        let ghost r = partial_action_result(n, a, rv0, cv, pv, subtask_queue_index as int);
        let mut rv_a = clone_relvars(&relevant_variables);
        let mut vals = clone_strings(&relevant_variables[i].2);
        let ghost vals0 = vals.deep_view();
        let solo = vals.pop();
        let solo_value = match solo {
            Some(v) => v,
            None => String::new(),
        };
        assert(rv1[i as int].2.len() > 0);
        let ghost va = vals.deep_view();
        assert(rv1[i as int] == relevant_variables@[i as int].deep_view());
        assert(va =~= rv1[i as int].2.drop_last());
        assert(solo_value@ == rv1[i as int].2.last());
        rv_a = crate::toolbox::constraints::set_one(&rv_a, i, vals);
        let one = crate::toolbox::constraints::single(&solo_value);
        let rv_b = crate::toolbox::constraints::set_one(&relevant_variables, i, one);
        let mut node_a = current_node.clone();
        let ghost qa = node_a.subtask_queue.deep_view();
        let no_pre_a: Vec<Precondition> = Vec::new();
        assert(no_pre_a.deep_view() =~= Seq::<PreconditionModel>::empty());
        let ea = (SubtaskTypes::Action(action.clone()), rv_a, clone_called(called), no_pre_a);
        assert(ea.deep_view() == (SubtaskTypesModel::Action(a), rv1.update(i as int, (rv1[i as int].0, rv1[i as int].1, rv1[i as int].2.drop_last())), cv, Seq::<PreconditionModel>::empty()));
        node_a.subtask_queue.set(subtask_queue_index, ea);
        let mut node_b = current_node.clone();
        let no_pre_b: Vec<Precondition> = Vec::new();
        assert(no_pre_b.deep_view() =~= Seq::<PreconditionModel>::empty());
        assert(one.deep_view() == seq![rv1[i as int].2.last()]);
        let eb = (SubtaskTypes::Action(action.clone()), rv_b, clone_called(called), no_pre_b);
        assert(eb.deep_view() == (SubtaskTypesModel::Action(a), rv1.update(i as int, (rv1[i as int].0, rv1[i as int].1, seq![rv1[i as int].2.last()])), cv, Seq::<PreconditionModel>::empty()));
        node_b.subtask_queue.set(subtask_queue_index, eb);
        assert(node_a.subtask_queue.deep_view() =~= qa.update(subtask_queue_index as int,
            (SubtaskTypesModel::Action(a), rv1.update(i as int, (rv1[i as int].0, rv1[i as int].1, rv1[i as int].2.drop_last())), cv, Seq::empty())));
        assert(node_b.subtask_queue.deep_view() =~= qa.update(subtask_queue_index as int,
            (SubtaskTypesModel::Action(a), rv1.update(i as int, (rv1[i as int].0, rv1[i as int].1, seq![rv1[i as int].2.last()])), cv, Seq::empty())));
        let ghost na = node_a@;
        let ghost nb = node_b@;
        node_queue.push(node_a);
        node_queue.push(node_b);
        assert(node_queue.deep_view() =~= q0.push(na).push(nb));
        assert(r.0 == seq![na, nb]);
        assert(node_queue.deep_view() =~= q0 + r.0);
        return false;
    }
    // Every variable has one value: apply the effects.
    assert forall|q: int| 0 <= q < rv1.len() implies (#[trigger] rv1[q]).2.len() > 0 by {
        assert(rv1[q].2.len() == 1);
    }
    if action.effect.is_some() {
        assert(effects_values_available(a.effect.unwrap(), rv1));
    }
    if called.1.len() != 0 {
        let (calling_method, calling_relevant_vars, called_passing_precon, called_method_org_state) = called.1.pop().unwrap();
        called.0.pop();
        assert(called.1.deep_view() =~= cv.1.drop_last());
        assert(called.0@ =~= pop_flag(cv.0));
        assert(called.deep_view() == (pop_flag(cv.0), cv.1.drop_last(), cv.2));
        apply_effects_cdcl(&mut current_node.problem, &mut current_node.applied_functions, &relevant_variables, &action);
        let idx = called.2[called.2.len() - 1];
        let subtask = &calling_method.subtasks[idx - 1];
        assert(calling_method@.subtasks[idx - 1] == subtask.deep_view());
        let sparams = match &subtask.0 {
            MethodSubtask::Task(t) => &t.parameters,
            MethodSubtask::Action(ac) => &ac.parameters,
        };
        assert(sparams.deep_view() == subtask_params(subtask.deep_view()));
        let renamed = renamed_to_exec(&relevant_variables, sparams);
        let new_relevant_variables = override_relvars(&calling_relevant_vars, &renamed);
        let ghost qn = current_node.subtask_queue.deep_view();
        current_node.subtask_queue.set(subtask_queue_index, (SubtaskTypes::Method(calling_method), new_relevant_variables, clone_called(called), called_passing_precon));
        let new_node = make_partial_node(current_node.problem, current_node.subtask_queue, current_node.applied_functions, current_node.hash_table,
            current_node.hash_counter, current_node.goal_functions, &called_method_org_state);
        let ghost nn = new_node@;
        let ghost r = partial_action_result(n, a, rv0, cv, pv, subtask_queue_index as int);
        node_queue.push(new_node);
        assert(node_queue.deep_view() =~= q0.push(nn));
        assert(nn.subtask_queue =~= r.0[0].subtask_queue);
        assert(nn == r.0[0]);
        assert(node_queue.deep_view() =~= q0 + r.0);
        true
    } else {
        apply_effects_cdcl(&mut current_node.problem, &mut current_node.applied_functions, &relevant_variables, &action);
        let ghost qn = current_node.subtask_queue.deep_view();
        current_node.subtask_queue.remove(subtask_queue_index);
        assert(current_node.subtask_queue.deep_view() =~= qn.remove(subtask_queue_index as int));
        let new_node = make_partial_node(current_node.problem, current_node.subtask_queue, current_node.applied_functions, current_node.hash_table,
            current_node.hash_counter, current_node.goal_functions, &current_node.original_state);
        let ghost nn = new_node@;
        let ghost r = partial_action_result(n, a, rv0, cv, pv, subtask_queue_index as int);
        node_queue.push(new_node);
        assert(node_queue.deep_view() =~= q0.push(nn));
        assert(nn == r.0[0]);
        assert(node_queue.deep_view() =~= q0 + r.0);
        true
    }
}

} // verus!
