//! Performing an action in the totally ordered search.
use vstd::prelude::*;
use crate::datastructures::domain::{Str, Action, ActionModel, MethodSubtask, Precondition, PreconditionModel, clone_preconditions, clone_strings};
use crate::datastructures::node::{RelVars, RelVarsModel, Node, NodeModel, SubtaskTypes, SubtaskTypesModel, clone_called, clone_relvars, clone_applied, clone_queue, copy_hash_table};
use crate::toolbox::precondition::{names_distinct, all_variables, trimmable, trimmer_result, precon_trimmer, chosen, cleanable, cleanup_fold, precondition_checkable, permutation_result, permutation_tool};
use crate::toolbox::passing_preconditions::{subtask_params, renaming_possible, update_passing_precondition};
use crate::toolbox::effect::{effects_values_available, values_available, apply_effects_cdcl};
use crate::toolbox::update::{overridden, override_relvars};
use crate::toolbox::nodes::{nothing_checkable, action_adds_nothing};
use crate::toolbox::{make_node, action_would_result_in_nothing, permutation_would_result_in_nothing};
use crate::toolbox::effect::clone_node_and_apply_effects;
use crate::perform::partial::action::{pop_flag, renamed_passing, first_unsettled, applied_problem, renamed_to, lemma_first_unsettled, renamed_to_exec};

verus! {

/// The action's own preconditions followed by the passed-on ones, renamed
/// to the action's parameters.
pub open spec fn total_action_preconditions(n: NodeModel, a: ActionModel) -> Seq<PreconditionModel> {
    a.precondition.unwrap() + renamed_passing(n.passing_preconditions, n.called, a.parameters)
}

/// The node that retries the action with the variable `i` fixed to its value `v`.
pub open spec fn branch_node(n: NodeModel, a: ActionModel, rv: RelVarsModel, i: int, v: int) -> NodeModel {
    NodeModel {
        subtask_queue: n.subtask_queue.push((SubtaskTypesModel::Action(a), rv.update(i, (rv[i].0, rv[i].1, seq![rv[i].2[v]])))),
        passing_preconditions: renamed_passing(n.passing_preconditions, n.called, a.parameters),
        ..n
    }
}

/// The node in which an action applied with the relevant variables `rv`
/// returns to its calling method: the effects are applied and the action
/// recorded, the caller goes back onto the queue with the values its
/// variables got, and the node carries the caller's passed-on preconditions.
pub open spec fn returned_node(n: NodeModel, a: ActionModel, rv: RelVarsModel) -> NodeModel {
    let caller = n.called.1.last();
    let c2 = (pop_flag(n.called.0), n.called.1.drop_last(), n.called.2);
    let af = n.applied_functions;
    let af1 = (af.0, af.1.push((SubtaskTypesModel::Action(a), af.1.len() as usize, Seq::<usize>::empty(), rv)));
    let sparams = subtask_params(caller.0.subtasks[n.called.2.last() - 1]);
    let back = overridden(caller.1, renamed_to(rv, sparams));
    NodeModel {
        problem: applied_problem(n.problem, a, rv),
        applied_functions: af1,
        subtask_queue: n.subtask_queue.push((SubtaskTypesModel::Method(caller.0), back)),
        called: c2,
        passing_preconditions: caller.2,
        ..n
    }
}

/// Whether applying the action would change nothing, so that returning to
/// the calling method is not tried.
pub open spec fn changes_nothing(n: NodeModel, a: ActionModel, rv: RelVarsModel) -> bool {
    a.effect.unwrap().len() > 0 && a.precondition.unwrap().len() > 0 && action_adds_nothing(a, n.problem.state, rv)
}

/// What `perform_action_cdcl` pushes. The action's preconditions and the
/// renamed passed-on ones are trimmed by; when they are not cleared nothing
/// happens. When a variable still has several values, the action goes back
/// onto the queue once for each of them. Otherwise the effects are applied
/// and the action recorded; the node returns to the calling method (unless
/// the action would change nothing), or, called by no method, stays as it is.
pub open spec fn total_cdcl_result(n: NodeModel, a: ActionModel, rv: RelVarsModel) -> Seq<NodeModel> {
    let t = trimmer_result(rv, total_action_preconditions(n, a), n.problem.objects, n.problem.state);
    if !t.1 {
        Seq::empty()
    } else {
        let rv1 = t.0;
        let i = first_unsettled(rv1);
        if i < rv1.len() {
            Seq::new(rv1[i].2.len(), |v: int| branch_node(n, a, rv1, i, v))
        } else if n.called.1.len() != 0 {
            if changes_nothing(n, a, rv1) {
                Seq::empty()
            } else {
                seq![returned_node(n, a, rv1)]
            }
        } else {
            let af = n.applied_functions;
            seq![NodeModel {
                problem: applied_problem(n.problem, a, rv1),
                applied_functions: (af.0, af.1.push((SubtaskTypesModel::Action(a), af.1.len() as usize, Seq::<usize>::empty(), rv1))),
                ..n
            }]
        }
    }
}

/// The inputs on which `perform_action_cdcl` reads nothing that is missing.
pub open spec fn total_cdcl_possible(n: NodeModel, a: ActionModel, rv: RelVarsModel) -> bool {
    let plist = total_action_preconditions(n, a);
    let t = trimmer_result(rv, plist, n.problem.objects, n.problem.state);
    &&& a.precondition is Some
    &&& n.passing_preconditions.len() > 0 ==> renaming_possible(n.called, a.parameters)
    &&& names_distinct(rv)
    &&& all_variables(rv)
    &&& forall|k: int| 0 <= k < plist.len() ==> trimmable(#[trigger] plist[k], rv, n.problem.state)
    &&& t.1 && first_unsettled(t.0) == t.0.len() && n.called.1.len() != 0 ==> {
        &&& a.effect is Some
        &&& a.effect.unwrap().len() > 0 && a.precondition.unwrap().len() > 0 ==> nothing_checkable(a, n.problem.state, t.0)
        &&& !changes_nothing(n, a, t.0) ==> {
            &&& n.called.2.len() > 0
            &&& 1 <= n.called.2.last() <= n.called.1.last().0.subtasks.len()
            &&& t.0.len() <= subtask_params(n.called.1.last().0.subtasks[n.called.2.last() - 1]).len()
        }
    }
}

/// Perform an action: trim its relevant variables by its preconditions and
/// the passed-on ones, branch on a variable that still has several values,
/// and otherwise apply its effects and return to the calling method.
#[verifier::rlimit(60)]
pub fn perform_action_cdcl(node_queue: &mut Vec<Node>, current_node: Node, action: Action, relevant_variables: RelVars)
    requires
        total_cdcl_possible(current_node@, action@, relevant_variables.deep_view()),
    ensures
        final(node_queue).deep_view() == old(node_queue).deep_view() + total_cdcl_result(current_node@, action@, relevant_variables.deep_view()),
{
    let ghost n = current_node@;
    let ghost a = action@;
    let ghost q0 = node_queue.deep_view();
    let ghost rv0 = relevant_variables.deep_view();
    let mut current_node = current_node;
    let new_passing_precon = update_passing_precondition(&current_node.called, &current_node.passing_preconditions, &action.parameters);
    assert(new_passing_precon.deep_view() =~= renamed_passing(n.passing_preconditions, n.called, a.parameters));
    let mut precondition_list: Vec<Precondition> = match &action.precondition {
        Some(p) => clone_preconditions(p),
        None => Vec::new(),
    };
    let ghost own = precondition_list.deep_view();
    let mut np = clone_preconditions(&new_passing_precon);
    precondition_list.append(&mut np);
    assert(precondition_list.deep_view() =~= total_action_preconditions(n, a));
    let (relevant_variables, cleared_precon) = precon_trimmer(relevant_variables, &precondition_list, &current_node.problem, &current_node.problem.state);
    let ghost rv1 = relevant_variables.deep_view();
    if !cleared_precon {
        return;
    }
    proof { lemma_first_unsettled(rv1); }
    let mut i: usize = 0;
    while i < relevant_variables.len() && relevant_variables[i].2.len() == 1
        invariant
            rv1 == relevant_variables.deep_view(),
            i <= relevant_variables.len(),
            forall|k: int| 0 <= k < i ==> (#[trigger] rv1[k]).2.len() == 1,
        decreases relevant_variables.len() - i,
    {
        assert(rv1[i as int] == relevant_variables@[i as int].deep_view());
        i = i + 1;
    }
    if i < relevant_variables.len() {
        assert(rv1[i as int] == relevant_variables@[i as int].deep_view());
    }
    assert(i == first_unsettled(rv1)) by {
        let f = first_unsettled(rv1);
        if f < i { assert(rv1[f].2.len() == 1); }
        if i < f { assert(rv1[i as int].2.len() == 1); }
    }
    if i < relevant_variables.len() {
        // The variable still has several values: try the action with each of them.
        let vals = &relevant_variables[i].2;
        assert(rv1[i as int] == relevant_variables@[i as int].deep_view());
        let mut v: usize = 0;
        while v < vals.len()
            invariant
                rv1 == relevant_variables.deep_view(),
                i < relevant_variables.len(),
                vals.deep_view() == rv1[i as int].2,
                current_node@ == n,
                a == action@,
                new_passing_precon.deep_view() == renamed_passing(n.passing_preconditions, n.called, a.parameters),
                v <= vals.len(),
                node_queue.deep_view() == q0 + Seq::new(v as nat, |q: int| branch_node(n, a, rv1, i as int, q)),
            decreases vals.len() - v,
        {
            assert(rv1[i as int].2[v as int] == vals@[v as int]@);
            let one = crate::toolbox::constraints::single(&vals[v]);
            let branch = crate::toolbox::constraints::set_one(&relevant_variables, i, one);
            let mut new_sq = clone_queue(&current_node.subtask_queue);
            let ghost sq0 = new_sq.deep_view();
            new_sq.push((SubtaskTypes::Action(action.clone()), branch));
            assert(new_sq.deep_view() =~= sq0.push((SubtaskTypesModel::Action(a), rv1.update(i as int, (rv1[i as int].0, rv1[i as int].1, seq![rv1[i as int].2[v as int]])))));
            let new_node = make_node(current_node.problem.clone(), new_sq, clone_called(&current_node.called), clone_applied(&current_node.applied_functions),
                copy_hash_table(&current_node.hash_table), clone_preconditions(&new_passing_precon), clone_strings(&current_node.goal_functions));
            assert(new_node@ == branch_node(n, a, rv1, i as int, v as int));
            let ghost nq = node_queue.deep_view();
            node_queue.push(new_node);
            proof {
                let s0 = Seq::new(v as nat, |q: int| branch_node(n, a, rv1, i as int, q));
                let s1 = Seq::new((v + 1) as nat, |q: int| branch_node(n, a, rv1, i as int, q));
                assert(s1 =~= s0.push(branch_node(n, a, rv1, i as int, v as int)));
                assert(node_queue.deep_view() =~= nq.push(branch_node(n, a, rv1, i as int, v as int)));
                assert(q0 + s1 =~= (q0 + s0).push(branch_node(n, a, rv1, i as int, v as int)));
            }
            v = v + 1;
        }
        assert(total_cdcl_result(n, a, rv0) =~= Seq::new(rv1[i as int].2.len(), |q: int| branch_node(n, a, rv1, i as int, q)));
        return;
    }
    // Every variable has one value: apply the effects.
    assert forall|q: int| 0 <= q < rv1.len() implies (#[trigger] rv1[q]).2.len() > 0 by {
        assert(rv1[q].2.len() == 1);
    }
    if action.effect.is_some() {
        assert(effects_values_available(a.effect.unwrap(), rv1));
    }
    if current_node.called.1.len() != 0 {
        let (calling_method, calling_relevant_vars, called_passing_precon, _calling_state) = current_node.called.1.pop().unwrap();
        current_node.called.0.pop();
        let has_effects = match &action.effect {
            Some(e) => e.len() > 0,
            None => false,
        };
        let has_precons = match &action.precondition {
            Some(p) => p.len() > 0,
            None => false,
        };
        if has_effects && has_precons && action_would_result_in_nothing(&relevant_variables, &action, &current_node.problem.state) {
            assert(changes_nothing(n, a, rv1));
            assert(node_queue.deep_view() =~= q0 + total_cdcl_result(n, a, rv0));
            return;
        }
        assert(!changes_nothing(n, a, rv1));
        assert(current_node.called.1.deep_view() =~= n.called.1.drop_last());
        assert(current_node.called.0@ =~= pop_flag(n.called.0));
        apply_effects_cdcl(&mut current_node.problem, &mut current_node.applied_functions, &relevant_variables, &action);
        let idx = current_node.called.2[current_node.called.2.len() - 1];
        let subtask = &calling_method.subtasks[idx - 1];
        assert(calling_method@.subtasks[idx - 1] == subtask.deep_view());
        let sparams = match &subtask.0 {
            MethodSubtask::Task(t) => &t.parameters,
            MethodSubtask::Action(ac) => &ac.parameters,
        };
        assert(sparams.deep_view() == subtask_params(subtask.deep_view()));
        let renamed = renamed_to_exec(&relevant_variables, sparams);
        let new_relevant_variables = override_relvars(&calling_relevant_vars, &renamed);
        let ghost qn = current_node.subtask_queue.deep_view();
        current_node.subtask_queue.push((SubtaskTypes::Method(calling_method), new_relevant_variables));
        let new_node = make_node(current_node.problem, current_node.subtask_queue, current_node.called, current_node.applied_functions,
            current_node.hash_table, called_passing_precon, current_node.goal_functions);
        let ghost nn = new_node@;
        node_queue.push(new_node);
        assert(nn.subtask_queue =~= returned_node(n, a, rv1).subtask_queue);
        assert(nn.problem == returned_node(n, a, rv1).problem);
        assert(nn.called == returned_node(n, a, rv1).called);
        assert(nn.applied_functions == returned_node(n, a, rv1).applied_functions);
        assert(nn == returned_node(n, a, rv1));
        assert(node_queue.deep_view() =~= q0 + total_cdcl_result(n, a, rv0));
    } else {
        apply_effects_cdcl(&mut current_node.problem, &mut current_node.applied_functions, &relevant_variables, &action);
        let new_node = make_node(current_node.problem, current_node.subtask_queue, current_node.called, current_node.applied_functions,
            current_node.hash_table, current_node.passing_preconditions, current_node.goal_functions);
        let ghost nn = new_node@;
        node_queue.push(new_node);
        assert(nn == total_cdcl_result(n, a, rv0)[0]);
        assert(node_queue.deep_view() =~= q0 + total_cdcl_result(n, a, rv0));
    }
}

/// The permutations an action is applied with, and the relevant variables
/// they pick from: those of `permutation_tool`, with the empty permutation
/// added for an action without parameters whose preconditions are cleared.
pub open spec fn action_perms(n: NodeModel, a: ActionModel, rv: RelVarsModel) -> (Seq<Seq<usize>>, RelVarsModel) {
    let r = permutation_result(rv, total_action_preconditions(n, a), n.problem.state, n.problem);
    (if a.parameters.len() == 0 && r.2 { r.0.push(Seq::<usize>::empty()) } else { r.0 }, r.1)
}

/// The node after an action called from the initial network is applied
/// with the relevant variables `rv`: no preconditions are passed on.
pub open spec fn direct_node(n: NodeModel, a: ActionModel, rv: RelVarsModel) -> NodeModel {
    let af = n.applied_functions;
    NodeModel {
        problem: applied_problem(n.problem, a, rv),
        applied_functions: (af.0, af.1.push((SubtaskTypesModel::Action(a), af.1.len() as usize, Seq::<usize>::empty(), rv))),
        passing_preconditions: Seq::empty(),
        ..n
    }
}

/// The nodes returning to the calling method for the first `k` permutations
/// that do not leave the state unchanged (judged by the values they pick
/// from `rv`); the effects use the values they pick from `erv`.
pub open spec fn returned_perm_nodes(n: NodeModel, a: ActionModel, rv: RelVarsModel, perms: Seq<Seq<usize>>, erv: RelVarsModel, k: int) -> Seq<NodeModel>
    decreases k,
{
    if k <= 0 {
        Seq::empty()
    } else {
        let prev = returned_perm_nodes(n, a, rv, perms, erv, k - 1);
        if changes_nothing(n, a, chosen(rv, perms[k - 1])) {
            prev
        } else {
            prev.push(returned_node(n, a, chosen(erv, perms[k - 1])))
        }
    }
}

/// What `perform_action` pushes: for every permutation of values that clears
/// the action's preconditions, a node with its effects applied, returning to
/// the calling method (unless the action would change nothing), or, called
/// from the initial network, without passed-on preconditions.
pub open spec fn total_perform_result(n: NodeModel, a: ActionModel, rv: RelVarsModel) -> Seq<NodeModel> {
    let p = action_perms(n, a, rv);
    if n.called.1.len() != 0 {
        returned_perm_nodes(n, a, rv, p.0, p.1, p.0.len() as int)
    } else {
        Seq::new(p.0.len(), |k: int| direct_node(n, a, chosen(rv, p.0[k])))
    }
}

/// A permutation picks a value of every relevant variable.
pub open spec fn fits(perm: Seq<usize>, rv: RelVarsModel) -> bool {
    &&& perm.len() >= rv.len()
    &&& forall|i: int| 0 <= i < rv.len() ==> perm[i] < (#[trigger] rv[i]).2.len()
}

/// The inputs on which `perform_action` reads nothing that is missing.
pub open spec fn total_perform_possible(n: NodeModel, a: ActionModel, rv: RelVarsModel) -> bool {
    let plist = total_action_preconditions(n, a);
    let p = action_perms(n, a, rv);
    &&& a.precondition is Some
    &&& n.passing_preconditions.len() > 0 ==> renaming_possible(n.called, a.parameters)
    &&& names_distinct(rv)
    &&& forall|k: int| 0 <= k < plist.len() ==> cleanable(#[trigger] plist[k], rv, n.problem.state)
    &&& cleanup_fold(rv, plist, n.problem.state, plist.len() as int) is Some
    &&& forall|k: int| 0 <= k < plist.len() ==> precondition_checkable(#[trigger] plist[k], rv, n.problem.state)
    &&& p.0.len() > 0 ==> a.effect is Some
    &&& forall|k: int| 0 <= k < p.0.len() ==> {
        let perm = #[trigger] p.0[k];
        if n.called.1.len() != 0 {
            &&& a.effect.unwrap().len() > 0 && a.precondition.unwrap().len() > 0 ==> fits(perm, rv) && nothing_checkable(a, n.problem.state, rv)
            &&& !changes_nothing(n, a, chosen(rv, perm)) ==> {
                &&& fits(perm, p.1)
                &&& n.called.2.len() > 0
                &&& 1 <= n.called.2.last() <= n.called.1.last().0.subtasks.len()
                &&& p.1.len() <= subtask_params(n.called.1.last().0.subtasks[n.called.2.last() - 1]).len()
            }
        } else {
            fits(perm, rv)
        }
    }
}

proof fn lemma_chosen_values(effects: Seq<crate::datastructures::domain::EffectModel>, rv: RelVarsModel, perm: Seq<usize>)
    ensures
        effects_values_available(effects, Seq::empty() + chosen(rv, perm)),
{
    let c = Seq::empty() + chosen(rv, perm);
    assert(c =~= chosen(rv, perm));
    assert forall|i: int| 0 <= i < effects.len() implies values_available((#[trigger] effects[i]).2, c) by {
        assert forall|k: int, j: int| 0 <= k < effects[i].2.len() && 0 <= j < c.len() && crate::text::is_var(#[trigger] effects[i].2[k]) && (#[trigger] c[j]).0 == effects[i].2[k]
            implies c[j].2.len() > 0 by {
            assert(c[j].2 == seq![rv[j].2[perm[j] as int]]);
        }
    }
}

/// Perform an action: apply it with every permutation of values that clears
/// its preconditions and the passed-on ones, and return to the calling method.
#[verifier::rlimit(80)]
pub fn perform_action(node_queue: &mut Vec<Node>, current_node: Node, action: Action, relevant_variables: RelVars)
    requires
        total_perform_possible(current_node@, action@, relevant_variables.deep_view()),
    ensures
        final(node_queue).deep_view() == old(node_queue).deep_view() + total_perform_result(current_node@, action@, relevant_variables.deep_view()),
{
    let ghost n = current_node@;
    let ghost a = action@;
    let ghost q0 = node_queue.deep_view();
    let ghost rv0 = relevant_variables.deep_view();
    let mut current_node = current_node;
    let new_passing_precon = update_passing_precondition(&current_node.called, &current_node.passing_preconditions, &action.parameters);
    assert(new_passing_precon.deep_view() =~= renamed_passing(n.passing_preconditions, n.called, a.parameters));
    let mut precondition_list: Vec<Precondition> = match &action.precondition {
        Some(p) => clone_preconditions(p),
        None => Vec::new(),
    };
    let mut np = new_passing_precon;
    precondition_list.append(&mut np);
    assert(precondition_list.deep_view() =~= total_action_preconditions(n, a));
    let (mut permutation_list, edited_relevant_variables, cleared_precon) = permutation_tool(clone_relvars(&relevant_variables), precondition_list, &current_node.problem.state, &current_node.problem);
    let ghost p0 = permutation_list.deep_view();
    if action.parameters.len() == 0 && cleared_precon {
        let none: Vec<usize> = Vec::new();
        assert(none.deep_view() =~= Seq::<usize>::empty());
        permutation_list.push(none);
        assert(permutation_list.deep_view() =~= p0.push(Seq::<usize>::empty()));
    }
    let ghost perms = permutation_list.deep_view();
    let ghost erv = edited_relevant_variables.deep_view();
    assert(perms =~= action_perms(n, a, rv0).0);
    assert(erv == action_perms(n, a, rv0).1);
    let has_effects = match &action.effect {
        Some(e) => e.len() > 0,
        None => false,
    };
    let has_precons = match &action.precondition {
        Some(p) => p.len() > 0,
        None => false,
    };
    if current_node.called.1.len() != 0 {
        let (calling_method, calling_relevant_vars, called_passing_precon, _calling_state) = current_node.called.1.pop().unwrap();
        current_node.called.0.pop();
        assert(current_node.called.1.deep_view() =~= n.called.1.drop_last());
        assert(current_node.called.0@ =~= pop_flag(n.called.0));
        assert(current_node.called.0.deep_view() =~= pop_flag(n.called.0));
        let ghost n1 = current_node@;
        let mut k: usize = 0;
        while k < permutation_list.len()
            invariant
                perms == permutation_list.deep_view(),
                erv == edited_relevant_variables.deep_view(),
                rv0 == relevant_variables.deep_view(),
                a == action@,
                current_node@ == n1,
                n1 == (NodeModel { called: (pop_flag(n.called.0), n.called.1.drop_last(), n.called.2), ..n }),
                n.called.1.len() != 0,
                (calling_method@, calling_relevant_vars.deep_view(), called_passing_precon.deep_view()) == (n.called.1.last().0, n.called.1.last().1, n.called.1.last().2),
                has_effects == (a.effect is Some && a.effect.unwrap().len() > 0),
                has_precons == (a.precondition is Some && a.precondition.unwrap().len() > 0),
                total_perform_possible(n, a, rv0),
                perms == action_perms(n, a, rv0).0,
                erv == action_perms(n, a, rv0).1,
                k <= permutation_list.len(),
                node_queue.deep_view() == q0 + returned_perm_nodes(n, a, rv0, perms, erv, k as int),
            decreases permutation_list.len() - k,
        {
            let permutation = &permutation_list[k];
            let ghost perm = perms[k as int];
            assert(permutation@ == perm);
            assert(a.effect is Some);
            let skip = if has_effects && has_precons {
                assert(fits(perm, rv0));
                assert forall|i: int| 0 <= i < relevant_variables.len() implies permutation@[i] < (#[trigger] relevant_variables@[i]).2.len() by {
                    assert(rv0[i] == relevant_variables@[i].deep_view());
                }
                permutation_would_result_in_nothing(permutation, &relevant_variables, &action, &current_node.problem.state)
            } else {
                false
            };
            assert(skip == changes_nothing(n, a, chosen(rv0, perm)));
            if !skip {
                assert(fits(perm, erv));
                assert forall|i: int| 0 <= i < edited_relevant_variables.len() implies permutation@[i] < (#[trigger] edited_relevant_variables@[i]).2.len() by {
                    assert(erv[i] == edited_relevant_variables@[i].deep_view());
                }
                let mut new_relevant_variables: RelVars = Vec::new();
                proof { lemma_chosen_values(a.effect.unwrap(), erv, perm); }
                assert(new_relevant_variables.deep_view() =~= Seq::<(Str, Str, Seq<Str>)>::empty());
                let mut new_current_node = clone_node_and_apply_effects(&mut current_node, &edited_relevant_variables, permutation, &action, &mut new_relevant_variables);
                let ghost params = new_relevant_variables.deep_view();
                assert(params =~= chosen(erv, perm));
                let idx = new_current_node.called.2[new_current_node.called.2.len() - 1];
                let subtask = &calling_method.subtasks[idx - 1];
                assert(calling_method@.subtasks[idx - 1] == subtask.deep_view());
                let sparams = match &subtask.0 {
                    MethodSubtask::Task(t) => &t.parameters,
                    MethodSubtask::Action(ac) => &ac.parameters,
                };
                assert(sparams.deep_view() == subtask_params(subtask.deep_view()));
                let renamed = renamed_to_exec(&new_relevant_variables, sparams);
                let back = override_relvars(&calling_relevant_vars, &renamed);
                new_current_node.subtask_queue.push((SubtaskTypes::Method(calling_method.clone()), back));
                let new_node = make_node(new_current_node.problem, new_current_node.subtask_queue, new_current_node.called, new_current_node.applied_functions,
                    copy_hash_table(&current_node.hash_table), clone_preconditions(&called_passing_precon), clone_strings(&current_node.goal_functions));
                let ghost nn = new_node@;
                let ghost target = returned_node(n, a, chosen(erv, perm));
                assert(nn.subtask_queue =~= target.subtask_queue);
                assert(nn.problem == target.problem);
                assert(nn.called == target.called);
                assert(nn.applied_functions == target.applied_functions);
                assert(nn == target);
                let ghost nq = node_queue.deep_view();
                node_queue.push(new_node);
                assert(returned_perm_nodes(n, a, rv0, perms, erv, k as int + 1) == returned_perm_nodes(n, a, rv0, perms, erv, k as int).push(target));
                assert(node_queue.deep_view() =~= nq.push(target));
                assert(node_queue.deep_view() =~= q0 + returned_perm_nodes(n, a, rv0, perms, erv, k as int + 1));
            } else {
                assert(returned_perm_nodes(n, a, rv0, perms, erv, k as int + 1) == returned_perm_nodes(n, a, rv0, perms, erv, k as int));
            }
            k = k + 1;
        }
    } else {
        let mut k: usize = 0;
        while k < permutation_list.len()
            invariant
                perms == permutation_list.deep_view(),
                rv0 == relevant_variables.deep_view(),
                a == action@,
                current_node@ == n,
                n.called.1.len() == 0,
                total_perform_possible(n, a, rv0),
                perms == action_perms(n, a, rv0).0,
                k <= permutation_list.len(),
                node_queue.deep_view() == q0 + Seq::new(k as nat, |q: int| direct_node(n, a, chosen(rv0, perms[q]))),
            decreases permutation_list.len() - k,
        {
            let permutation = &permutation_list[k];
            let ghost perm = perms[k as int];
            assert(permutation@ == perm);
            assert(fits(perm, rv0));
            assert(a.effect is Some);
            assert forall|i: int| 0 <= i < relevant_variables.len() implies permutation@[i] < (#[trigger] relevant_variables@[i]).2.len() by {
                assert(rv0[i] == relevant_variables@[i].deep_view());
            }
            let mut new_relevant_variables: RelVars = Vec::new();
            proof { lemma_chosen_values(a.effect.unwrap(), rv0, perm); }
            assert(new_relevant_variables.deep_view() =~= Seq::<(Str, Str, Seq<Str>)>::empty());
            let new_current_node = clone_node_and_apply_effects(&mut current_node, &relevant_variables, permutation, &action, &mut new_relevant_variables);
            assert(new_relevant_variables.deep_view() =~= chosen(rv0, perm));
            let no_passing: Vec<Precondition> = Vec::new();
            assert(no_passing.deep_view() =~= Seq::<PreconditionModel>::empty());
            let new_node = make_node(new_current_node.problem, new_current_node.subtask_queue, new_current_node.called, new_current_node.applied_functions,
                copy_hash_table(&current_node.hash_table), no_passing, clone_strings(&current_node.goal_functions));
            assert(new_node@ == direct_node(n, a, chosen(rv0, perm)));
            let ghost nq = node_queue.deep_view();
            node_queue.push(new_node);
            proof {
                let s0 = Seq::new(k as nat, |q: int| direct_node(n, a, chosen(rv0, perms[q])));
                let s1 = Seq::new((k + 1) as nat, |q: int| direct_node(n, a, chosen(rv0, perms[q])));
                assert(s1 =~= s0.push(direct_node(n, a, chosen(rv0, perm))));
                assert(node_queue.deep_view() =~= nq.push(direct_node(n, a, chosen(rv0, perm))));
                assert(q0 + s1 =~= (q0 + s0).push(direct_node(n, a, chosen(rv0, perm))));
            }
            k = k + 1;
        }
        assert(total_perform_result(n, a, rv0) =~= Seq::new(perms.len(), |q: int| direct_node(n, a, chosen(rv0, perms[q]))));
    }
}

} // verus!
