//! Applying the effects of actions to a state.
use vstd::prelude::*;
use crate::datastructures::domain::{Str, Action, Effect, EffectModel};
use crate::datastructures::node::{RelVars, RelVarsModel, AppliedFunctions, SubtaskTypes, SubtaskTypesModel, Node, NodeModel, clone_relvars};
use crate::datastructures::problem::{Problem, ProblemModel, StateModel};
use crate::toolbox::precondition::chosen;
use crate::text::{is_var, is_variable};
use crate::toolbox::lists::compare_lists;

verus! {

/// The first value of every relevant variable named `var`, in order.
pub open spec fn param_values(params: RelVarsModel, var: Str) -> Seq<Str>
    decreases params.len(),
{
    if params.len() == 0 {
        Seq::empty()
    } else {
        let rest = param_values(params.drop_last(), var);
        if params.last().0 == var { rest.push(params.last().2[0]) } else { rest }
    }
}

/// The values of a list of arguments: a variable stands for the first value
/// of every relevant variable of that name, a constant for itself.
pub open spec fn effect_values(vars: Seq<Str>, params: RelVarsModel) -> Seq<Str>
    decreases vars.len(),
{
    if vars.len() == 0 {
        Seq::empty()
    } else {
        effect_values(vars.drop_last(), params) + (if is_var(vars.last()) {
            param_values(params, vars.last())
        } else {
            seq![vars.last()]
        })
    }
}

/// Every relevant variable that a variable of `vars` names has a value.
pub open spec fn values_available(vars: Seq<Str>, params: RelVarsModel) -> bool {
    forall|k: int, j: int| 0 <= k < vars.len() && 0 <= j < params.len() && is_var(#[trigger] vars[k]) && (#[trigger] params[j]).0 == vars[k]
        ==> params[j].2.len() > 0
}

/// Makes the list of values of the arguments of an effect.
pub fn generate_effect_param_list(effect: &Effect, param_list: &RelVars) -> (res: Vec<String>)
    requires
        values_available(effect.2.deep_view(), param_list.deep_view()),
    ensures
        res.deep_view() == effect_values(effect.2.deep_view(), param_list.deep_view()),
{
    let ghost vars = effect.2.deep_view();
    let ghost params = param_list.deep_view();
    let mut effect_values_list: Vec<String> = Vec::new();
    let mut i: usize = 0;
    while i < effect.2.len()
        invariant
            i <= effect.2.len(),
            effect_values_list.deep_view() == effect_values(vars.take(i as int), params),
        decreases effect.2.len() - i,
    {
        let effect_var = &effect.2[i];
        assert(vars[i as int] == effect_var@);
        assert(vars.take(i + 1).drop_last() =~= vars.take(i as int));
        assert(vars.take(i + 1).last() == effect_var@);
        if is_variable(effect_var) {
            let ghost base = effect_values_list.deep_view();
            let mut j: usize = 0;
            while j < param_list.len()
                invariant
                    i < effect.2.len(),
                    j <= param_list.len(),
                    is_var(effect_var@),
                    effect_values_list.deep_view() == base + param_values(params.take(j as int), effect_var@),
                decreases param_list.len() - j,
            {
                let value = &param_list[j];
                assert(params[j as int] == value.deep_view());
                assert(params.take(j + 1).drop_last() =~= params.take(j as int));
                if *effect_var == value.0 {
                    assert(value.2.len() > 0);
                    let ghost before = effect_values_list.deep_view();
                    effect_values_list.push(value.2[0].clone());
                    assert(effect_values_list.deep_view() =~= before.push(value.2@[0]@));
                    assert(effect_values_list.deep_view() =~= base + param_values(params.take(j + 1), effect_var@));
                } else {
                    assert(effect_values_list.deep_view() =~= base + param_values(params.take(j + 1), effect_var@));
                }
                j = j + 1;
            }
            assert(params.take(j as int) =~= params);
        } else {
            let ghost before = effect_values_list.deep_view();
            effect_values_list.push(effect_var.clone());
            assert(effect_values_list.deep_view() =~= before + seq![effect_var@]);
        }
        i = i + 1;
    }
    assert(vars.take(i as int) =~= vars);
    effect_values_list
}

/// Whether a fact has the given predicate and arguments.
pub open spec fn fact_is(fact: (Str, Seq<Str>), name: Str, values: Seq<Str>) -> bool {
    fact.0 == name && fact.1 == values
}

/// The index of the first fact of a state with the given predicate and arguments.
pub open spec fn first_fact(state: StateModel, name: Str, values: Seq<Str>) -> int {
    choose|k: int| 0 <= k < state.len() && fact_is(state[k], name, values)
        && forall|j: int| 0 <= j < k ==> !fact_is(#[trigger] state[j], name, values)
}

/// A state after one effect: a positive effect adds its fact at the end, a
/// negative one removes the first occurrence of its fact, if any.
pub open spec fn effect_on_state(state: StateModel, effect: EffectModel, params: RelVarsModel) -> StateModel {
    let values = effect_values(effect.2, params);
    if effect.0 {
        state.push((effect.1, values))
    } else if exists|k: int| 0 <= k < state.len() && fact_is(#[trigger] state[k], effect.1, values) {
        state.remove(first_fact(state, effect.1, values))
    } else {
        state
    }
}

/// A state after a list of effects, applied in order.
pub open spec fn effects_on_state(state: StateModel, effects: Seq<EffectModel>, params: RelVarsModel) -> StateModel
    decreases effects.len(),
{
    if effects.len() == 0 {
        state
    } else {
        effect_on_state(effects_on_state(state, effects.drop_last(), params), effects.last(), params)
    }
}

/// Every effect of a list has values for its variables.
pub open spec fn effects_values_available(effects: Seq<EffectModel>, params: RelVarsModel) -> bool {
    forall|i: int| 0 <= i < effects.len() ==> values_available((#[trigger] effects[i]).2, params)
}

/// Applies the effect of an action.
pub fn apply_effect(effect: &Effect, problem: &mut Problem, param_list: &RelVars)
    requires
        values_available(effect.2.deep_view(), param_list.deep_view()),
    ensures
        final(problem)@.state == effect_on_state(old(problem)@.state, effect.deep_view(), param_list.deep_view()),
        final(problem)@.name == old(problem)@.name,
        final(problem)@.domain == old(problem)@.domain,
        final(problem)@.objects == old(problem)@.objects,
        final(problem)@.htn == old(problem)@.htn,
        final(problem)@.goal == old(problem)@.goal,
{
    let effect_values_list = generate_effect_param_list(effect, param_list);
    let ghost values = effect_values_list.deep_view();
    let ghost state = problem.state.deep_view();
    if !effect.0 {
        let mut k: usize = 0;
        let mut found = false;
        while k < problem.state.len() && !found
            invariant
                k <= problem.state.len(),
                state == problem.state.deep_view(),
                found ==> k < problem.state.len() && fact_is(state[k as int], effect.1@, values),
                forall|j: int| 0 <= j < k ==> !fact_is(#[trigger] state[j], effect.1@, values),
            decreases problem.state.len() - k, (if found { 0int } else { 1int }),
        {
            assert(state[k as int] == problem.state@[k as int].deep_view());
            if problem.state[k].0 == effect.1 && compare_lists(&problem.state[k].1, &effect_values_list) {
                found = true;
            } else {
                k = k + 1;
            }
        }
        if found {
            assert(first_fact(state, effect.1@, values) == k) by {
                let f = first_fact(state, effect.1@, values);
                assert(0 <= k < state.len() && fact_is(state[k as int], effect.1@, values)
                    && forall|j: int| 0 <= j < k ==> !fact_is(#[trigger] state[j], effect.1@, values));
                if f < k {
                    assert(!fact_is(state[f], effect.1@, values));
                } else if f > k {
                    assert(!fact_is(state[k as int], effect.1@, values));
                }
            }
            problem.state.remove(k);
            assert(problem.state.deep_view() =~= state.remove(k as int));
        } else {
            assert(!exists|j: int| 0 <= j < state.len() && fact_is(#[trigger] state[j], effect.1@, values));
        }
    } else {
        problem.state.push((effect.1.clone(), effect_values_list));
        assert(problem.state.deep_view() =~= state.push((effect.1@, values)));
    }
}

/// Applies the effects of an action and records the action as applied.
pub fn apply_effects_cdcl(problem: &mut Problem, applied_functions: &mut AppliedFunctions, relevant_variables: &RelVars, action: &Action)
    requires
        action@.effect is Some ==> effects_values_available(action@.effect.unwrap(), relevant_variables.deep_view()),
    ensures
        final(problem)@.state == (match action@.effect {
            Some(effects) => effects_on_state(old(problem)@.state, effects, relevant_variables.deep_view()),
            None => old(problem)@.state,
        }),
        final(problem)@.name == old(problem)@.name,
        final(problem)@.domain == old(problem)@.domain,
        final(problem)@.objects == old(problem)@.objects,
        final(problem)@.htn == old(problem)@.htn,
        final(problem)@.goal == old(problem)@.goal,
        final(applied_functions).0.deep_view() == old(applied_functions).0.deep_view(),
        final(applied_functions).1.deep_view() == old(applied_functions).1.deep_view().push(
            (crate::datastructures::node::SubtaskTypesModel::Action(action@), old(applied_functions).1.len(), Seq::<usize>::empty(), relevant_variables.deep_view())),
{
    let ghost params = relevant_variables.deep_view();
    if let Some(effects) = &action.effect {
        let ghost ev = effects.deep_view();
        let ghost start = problem.state.deep_view();
        let mut i: usize = 0;
        while i < effects.len()
            invariant
                i <= effects.len(),
                ev == effects.deep_view(),
                effects_values_available(ev, params),
                problem@.state == effects_on_state(start, ev.take(i as int), params),
                problem@.name == old(problem)@.name,
                problem@.domain == old(problem)@.domain,
                problem@.objects == old(problem)@.objects,
                problem@.htn == old(problem)@.htn,
                problem@.goal == old(problem)@.goal,
            decreases effects.len() - i,
        {
            assert(ev[i as int] == effects@[i as int].deep_view());
            assert(ev.take(i + 1).drop_last() =~= ev.take(i as int));
            apply_effect(&effects[i], problem, relevant_variables);
            i = i + 1;
        }
        assert(ev.take(i as int) =~= ev);
    }
    let ghost before = applied_functions.1.deep_view();
    let len = applied_functions.1.len();
    let called_ids: Vec<usize> = Vec::new();
    assert(called_ids.deep_view() =~= Seq::<usize>::empty());
    let entry = (SubtaskTypes::Action(action.clone()), len, called_ids, clone_relvars(relevant_variables));
    applied_functions.1.push(entry);
    assert(applied_functions.1.deep_view() =~= before.push(
        (crate::datastructures::node::SubtaskTypesModel::Action(action@), len, Seq::<usize>::empty(), params)));
}


/// Generates a new node with the effects of an action applied with the
/// values that a permutation picks: the picked relevant variables are
/// appended to `new_relevant_variables`, the effects are applied with all of
/// them, and the action is recorded as applied.
pub fn clone_node_and_apply_effects(current_node: &mut Node, relevant_variables: &RelVars, permutation: &Vec<usize>, action: &Action, new_relevant_variables: &mut RelVars) -> (res: Node)
    requires
        permutation.len() >= relevant_variables.len(),
        forall|i: int| 0 <= i < relevant_variables.len() ==> permutation@[i] < (#[trigger] relevant_variables@[i]).2.len(),
        action@.effect is Some,
        effects_values_available(action@.effect.unwrap(), old(new_relevant_variables).deep_view() + chosen(relevant_variables.deep_view(), permutation@)),
    ensures
        final(current_node)@ == old(current_node)@,
        final(new_relevant_variables).deep_view() == old(new_relevant_variables).deep_view() + chosen(relevant_variables.deep_view(), permutation@),
        ({
            let n = old(current_node)@;
            let params = final(new_relevant_variables).deep_view();
            res@ == (NodeModel {
                problem: ProblemModel { state: effects_on_state(n.problem.state, action@.effect.unwrap(), params), ..n.problem },
                applied_functions: (n.applied_functions.0, n.applied_functions.1.push(
                    (SubtaskTypesModel::Action(action@), n.applied_functions.1.len() as usize, Seq::<usize>::empty(), params))),
                ..n
            })
        }),
{
    let mut new_current_node = current_node.clone();
    let ghost s = relevant_variables.deep_view();
    let ghost start = new_relevant_variables.deep_view();
    let ghost c = chosen(s, permutation@);
    let mut i: usize = 0;
    while i < relevant_variables.len()
        invariant
            s == relevant_variables.deep_view(),
            c == chosen(s, permutation@),
            permutation.len() >= relevant_variables.len(),
            forall|k: int| 0 <= k < relevant_variables.len() ==> permutation@[k] < (#[trigger] relevant_variables@[k]).2.len(),
            i <= relevant_variables.len(),
            new_relevant_variables.deep_view() == start + c.take(i as int),
        decreases relevant_variables.len() - i,
    {
        let val = &relevant_variables[i];
        assert(s[i as int] == val.deep_view());
        assert(s[i as int].2[permutation@[i as int] as int] == val.2@[permutation@[i as int] as int]@);
        let mut one: Vec<String> = Vec::new();
        one.push(val.2[permutation[i]].clone());
        assert(one.deep_view() =~= seq![s[i as int].2[permutation@[i as int] as int]]);
        let ghost before = new_relevant_variables.deep_view();
        new_relevant_variables.push((val.0.clone(), val.1.clone(), one));
        assert(new_relevant_variables.deep_view() =~= before.push(c[i as int]));
        assert(start + c.take(i + 1) =~= (start + c.take(i as int)).push(c[i as int]));
        i = i + 1;
    }
    assert(c.take(i as int) =~= c);
    apply_effects_cdcl(&mut new_current_node.problem, &mut new_current_node.applied_functions, new_relevant_variables, action);
    new_current_node
}

} // verus!
