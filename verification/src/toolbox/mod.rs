//! Operations on planning nodes, domains and relevant variables.
use vstd::prelude::*;
use crate::datastructures::domain::{Str, Action, ActionModel, Method, MethodModel, MethodSubtaskModel};
use crate::datastructures::problem::{StateModel};

pub mod lists;
pub mod effect;
pub mod constraints;
pub mod relvars;
pub mod update;
pub mod domain_ops;
pub mod methods;
pub mod precondition;
pub mod passing_preconditions;
pub mod nodes;
pub use nodes::{make_node, make_partial_node, prep_htn_subtasks, prep_partial_htn_subtasks, action_would_result_in_nothing, permutation_would_result_in_nothing, hash_state, partial_hash_state};

verus! {

/// Whether a method refines its own task directly (one of its subtasks is the task it refines).
pub open spec fn calls_own_task(m: MethodModel) -> bool {
    exists|k: int| 0 <= k < m.subtasks.len() && match #[trigger] m.subtasks[k].0 {
        MethodSubtaskModel::Task(t) => t.name == m.task.0,
        MethodSubtaskModel::Action(_) => false,
    }
}

/// Whether some method of a method table refines its own task directly.
pub open spec fn table_calls_method(table: Seq<(Str, Seq<MethodModel>)>) -> bool {
    exists|i: int, j: int| 0 <= i < table.len() && 0 <= j < table[i].1.len() && calls_own_task(#[trigger] table[i].1[j])
}

/// Checks if the domain contains methods that call their own task.
pub fn method_calls_method(method_list: &Vec<(String, Vec<Method>)>) -> (res: bool)
    ensures
        res == table_calls_method(method_list.deep_view()),
{
    let ghost table = method_list.deep_view();
    let mut i: usize = 0;
    while i < method_list.len()
        invariant
            i <= method_list.len(),
            table == method_list.deep_view(),
            forall|a: int, b: int| 0 <= a < i && 0 <= b < table[a].1.len() ==> !calls_own_task(#[trigger] table[a].1[b]),
        decreases method_list.len() - i,
    {
        let methods = &method_list[i].1;
        assert(table[i as int].1 == methods.deep_view());
        let mut j: usize = 0;
        while j < methods.len()
            invariant
                i < method_list.len(),
                methods == &method_list@[i as int].1,
                table == method_list.deep_view(),
                table[i as int].1 == methods.deep_view(),
                j <= methods.len(),
                forall|b: int| 0 <= b < j ==> !calls_own_task(#[trigger] table[i as int].1[b]),
            decreases methods.len() - j,
        {
            let method = &methods[j];
            assert(table[i as int].1[j as int] == method@);
            let mut k: usize = 0;
            while k < method.subtasks.len()
                invariant
                    method == &methods@[j as int],
                    table == method_list.deep_view(),
                    table.len() == method_list.len(),
                    table[i as int].1 == methods.deep_view(),
                    i < method_list.len(),
                    j < methods.len(),
                    table[i as int].1[j as int] == method@,
                    k <= method.subtasks.len(),
                    forall|c: int| 0 <= c < k ==> match #[trigger] method@.subtasks[c].0 {
                        MethodSubtaskModel::Task(t) => t.name != method@.task.0,
                        MethodSubtaskModel::Action(_) => true,
                    },
                decreases method.subtasks.len() - k,
            {
                match &method.subtasks[k].0 {
                    crate::datastructures::domain::MethodSubtask::Task(task) => {
                        if method.task.0 == task.name {
                            assert(calls_own_task(method@)) by {
                                assert(method@.subtasks[k as int].0 == MethodSubtaskModel::Task(task@));
                            }
                            assert(calls_own_task(table[i as int].1[j as int]));
                            assert(0 <= i < table.len() && 0 <= j < table[i as int].1.len());
                            return true;
                        }
                    },
                    crate::datastructures::domain::MethodSubtask::Action(_) => {},
                }
                k = k + 1;
            }
            j = j + 1;
        }
        i = i + 1;
    }
    false
}

/// Whether the arguments of a fact start with the given values.
pub open spec fn args_start_with(args: Seq<Str>, prefix: Seq<Str>) -> bool {
    prefix.len() <= args.len() && args.take(prefix.len() as int) == prefix
}

/// Whether one of an action's effects repeats one of its preconditions:
/// same predicate, and the precondition's arguments start with the effect's.
pub open spec fn effect_repeats_precondition(a: ActionModel) -> bool {
    &&& a.effect is Some
    &&& a.precondition is Some
    &&& exists|i: int, j: int|
            0 <= i < a.effect.unwrap().len() && 0 <= j < a.precondition.unwrap().len()
            && (#[trigger] a.effect.unwrap()[i]).1 == (#[trigger] a.precondition.unwrap()[j]).1
            && args_start_with(a.precondition.unwrap()[j].2, a.effect.unwrap()[i].2)
}

/// The precondition of `effect_is_in_precons`: a precondition on the same
/// predicate as an effect has at least as many arguments.
pub open spec fn effect_arities_fit(a: ActionModel) -> bool {
    a.effect is Some && a.precondition is Some ==> forall|i: int, j: int|
        0 <= i < a.effect.unwrap().len() && 0 <= j < a.precondition.unwrap().len()
        && (#[trigger] a.effect.unwrap()[i]).1 == (#[trigger] a.precondition.unwrap()[j]).1
        ==> a.effect.unwrap()[i].2.len() <= a.precondition.unwrap()[j].2.len()
}

/// Whether the effect of an action is among its own preconditions.
pub fn effect_is_in_precons(action: &Action) -> (res: bool)
    requires
        effect_arities_fit(action@),
    ensures
        res == effect_repeats_precondition(action@),
{
    match (&action.effect, &action.precondition) {
        (Some(effects), Some(precons)) => {
            let ghost ev = effects.deep_view();
            let ghost pv = precons.deep_view();
            let mut i: usize = 0;
            while i < effects.len()
                invariant
                    ev == effects.deep_view(),
                    pv == precons.deep_view(),
                    action@.effect == Some(ev),
                    action@.precondition == Some(pv),
                    effect_arities_fit(action@),
                    i <= effects.len(),
                    forall|a: int, b: int| 0 <= a < i && 0 <= b < pv.len() && (#[trigger] ev[a]).1 == (#[trigger] pv[b]).1
                        ==> !args_start_with(pv[b].2, ev[a].2),
                decreases effects.len() - i,
            {
                let effect = &effects[i];
                assert(ev[i as int] == effect.deep_view());
                let mut j: usize = 0;
                while j < precons.len()
                    invariant
                        ev == effects.deep_view(),
                        pv == precons.deep_view(),
                        action@.effect == Some(ev),
                        action@.precondition == Some(pv),
                        effect_arities_fit(action@),
                        i < effects.len(),
                        effect == &effects@[i as int],
                        j <= precons.len(),
                        forall|b: int| 0 <= b < j && ev[i as int].1 == (#[trigger] pv[b]).1
                            ==> !args_start_with(pv[b].2, ev[i as int].2),
                    decreases precons.len() - j,
                {
                    let precon = &precons[j];
                    assert(pv[j as int] == precon.deep_view());
                    if effect.1 == precon.1 {
                        assert(ev[i as int].1 == pv[j as int].1);
                        assert(action@.effect.unwrap()[i as int] == ev[i as int]);
                        assert(action@.precondition.unwrap()[j as int] == pv[j as int]);
                        assert(effect.2.len() <= precon.2.len());
                        let mut found_eq: usize = 0;
                        let mut k: usize = 0;
                        while k < effect.2.len()
                            invariant
                                k <= effect.2.len(),
                                effect.2.len() <= precon.2.len(),
                                found_eq <= k,
                                found_eq == k <==> forall|c: int| 0 <= c < k ==> effect.2@[c]@ == precon.2@[c]@,
                            decreases effect.2.len() - k,
                        {
                            if effect.2[k] == precon.2[k] {
                                found_eq = found_eq + 1;
                            }
                            k = k + 1;
                        }
                        if found_eq == effect.2.len() {
                            assert(precon.2.deep_view().take(effect.2.len() as int) =~= effect.2.deep_view());
                            assert(args_start_with(pv[j as int].2, ev[i as int].2));
                            assert(ev[i as int].1 == pv[j as int].1);
                            assert(action@.effect.unwrap()[i as int] == ev[i as int]);
                            assert(action@.precondition.unwrap()[j as int] == pv[j as int]);
                            return true;
                        } else {
                            assert(!args_start_with(pv[j as int].2, ev[i as int].2)) by {
                                if args_start_with(pv[j as int].2, ev[i as int].2) {
                                    assert forall|c: int| 0 <= c < k implies effect.2@[c]@ == precon.2@[c]@ by {
                                        assert(precon.2.deep_view().take(effect.2.len() as int)[c] == effect.2.deep_view()[c]);
                                    }
                                }
                            }
                        }
                    }
                    j = j + 1;
                }
                i = i + 1;
            }
            false
        },
        _ => false,
    }
}

/// Whether a goal fact is reached in a state: some fact of the state has
/// the goal's predicate and its arguments start with the goal's arguments.
pub open spec fn goal_fact_reached(state: StateModel, goal_fact: (Str, Seq<Str>)) -> bool {
    exists|j: int| 0 <= j < state.len() && (#[trigger] state[j]).0 == goal_fact.0 && args_start_with(state[j].1, goal_fact.1)
}

/// Whether every goal fact is reached in a state (no goal is always reached).
pub open spec fn goal_reached(state: StateModel, goal: Option<StateModel>) -> bool {
    goal is Some ==> forall|i: int| 0 <= i < goal.unwrap().len() ==> goal_fact_reached(state, #[trigger] goal.unwrap()[i])
}

/// The precondition of `check_goal_condition`: a fact of the state on the
/// predicate of a goal fact has at least as many arguments.
pub open spec fn goal_arities_fit(state: StateModel, goal: Option<StateModel>) -> bool {
    goal is Some ==> forall|i: int, j: int|
        0 <= i < goal.unwrap().len() && 0 <= j < state.len() && (#[trigger] goal.unwrap()[i]).0 == (#[trigger] state[j]).0
        ==> goal.unwrap()[i].1.len() <= state[j].1.len()
}

/// Checks if the goal state reached is valid.
pub fn check_goal_condition(state: &Vec<(String, Vec<String>)>, goal: &Option<Vec<(String, Vec<String>)>>) -> (res: bool)
    requires
        goal_arities_fit(state.deep_view(), goal.deep_view()),
    ensures
        res == goal_reached(state.deep_view(), goal.deep_view()),
{
    let ghost outer = goal.deep_view();
    match goal {
        Some(g) => {
            assert(outer == Some(g.deep_view()));
            let ghost sv = state.deep_view();
            let ghost gv = g.deep_view();
            let mut i: usize = 0;
            while i < g.len()
                invariant
                    sv == state.deep_view(),
                    gv == g.deep_view(),
                    outer == Some(gv),
                    outer == goal.deep_view(),
                    goal_arities_fit(sv, Some(gv)),
                    i <= g.len(),
                    forall|a: int| 0 <= a < i ==> goal_fact_reached(sv, #[trigger] gv[a]),
                decreases g.len() - i,
            {
                let goal_req = &g[i];
                assert(gv[i as int] == goal_req.deep_view());
                let mut sub_goal = false;
                let mut j: usize = 0;
                while j < state.len() && !sub_goal
                    invariant
                        sv == state.deep_view(),
                        gv == g.deep_view(),
                        goal_arities_fit(sv, Some(gv)),
                        i < g.len(),
                        goal_req == &g@[i as int],
                        gv[i as int] == goal_req.deep_view(),
                        j <= state.len(),
                        sub_goal ==> goal_fact_reached(sv, gv[i as int]),
                        !sub_goal ==> forall|b: int| 0 <= b < j ==> !((#[trigger] sv[b]).0 == gv[i as int].0 && args_start_with(sv[b].1, gv[i as int].1)),
                    decreases state.len() - j, (if sub_goal { 0int } else { 1int }),
                {
                    let predicate = &state[j];
                    assert(sv[j as int] == predicate.deep_view());
                    if goal_req.0 == predicate.0 {
                        assert(gv[i as int].0 == sv[j as int].0);
                        assert(Some(gv).unwrap()[i as int].0 == sv[j as int].0);
                        assert(goal_req.1.len() <= predicate.1.len());
                        let mut all_eq = true;
                        let mut k: usize = 0;
                        while k < goal_req.1.len() && all_eq
                            invariant
                                k <= goal_req.1.len(),
                                goal_req.1.len() <= predicate.1.len(),
                                all_eq ==> forall|c: int| 0 <= c < k ==> goal_req.1@[c]@ == predicate.1@[c]@,
                                !all_eq ==> k < goal_req.1.len() && goal_req.1@[k as int]@ != predicate.1@[k as int]@,
                            decreases goal_req.1.len() - k, (if all_eq { 1int } else { 0int }),
                        {
                            if goal_req.1[k] != predicate.1[k] {
                                all_eq = false;
                            } else {
                                k = k + 1;
                            }
                        }
                        if all_eq {
                            assert(predicate.1.deep_view().take(goal_req.1.len() as int) =~= goal_req.1.deep_view());
                            sub_goal = true;
                            assert(goal_fact_reached(sv, gv[i as int])) by {
                                assert(args_start_with(sv[j as int].1, gv[i as int].1));
                            }
                        } else {
                            assert(!args_start_with(sv[j as int].1, gv[i as int].1)) by {
                                if args_start_with(sv[j as int].1, gv[i as int].1) {
                                    assert(predicate.1.deep_view().take(goal_req.1.len() as int)[k as int] == goal_req.1.deep_view()[k as int]);
                                }
                            }
                        }
                    }
                    if !sub_goal {
                        j = j + 1;
                    }
                }
                if !sub_goal {
                    assert(!goal_fact_reached(sv, gv[i as int]));
                    assert(outer.unwrap()[i as int] == gv[i as int]);
                    assert(0 <= i < outer.unwrap().len());
                    assert(!goal_reached(sv, outer));
                    return false;
                }
                i = i + 1;
            }
            true
        },
        None => true,
    }
}

} // verus!
