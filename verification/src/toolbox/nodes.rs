//! Making search nodes, preparing the initial task network, and recognising
//! states and actions that lead nowhere new.
use vstd::prelude::*;
use std::collections::{HashMap, HashSet};
use std::hash::{Hash, Hasher};
use crate::datastructures::domain::{Str, Action, ActionModel, EffectModel, Precondition, clone_strings};
use crate::datastructures::node::{Node, NodeModel, PartialNode, PartialNodeModel, SubtaskTypes, SubtaskTypesModel, RelVars, RelVarsModel, Called, CalledModel, AppliedFunctions, clone_relvars};
use crate::datastructures::problem::{Problem, State, StateModel, clone_state};
use crate::text::{is_var, is_variable, contains_string, string_of};
use crate::toolbox::{effect_repeats_precondition, effect_arities_fit, effect_is_in_precons};
use crate::toolbox::precondition::chosen;

verus! {

broadcast use vstd::std_specs::hash::group_hash_axioms;

/// Generates a node with the given parts.
pub fn make_node(new_problem: Problem, sq: Vec<(SubtaskTypes, RelVars)>, called: Called, afl: AppliedFunctions, hs: HashSet<u64>, passing_preconditions: Vec<Precondition>, goal_functions: Vec<String>) -> (res: Node)
    ensures
        res@ == (NodeModel {
            problem: new_problem@,
            subtask_queue: sq.deep_view(),
            called: called.deep_view(),
            applied_functions: afl.deep_view(),
            hash_table: hs@,
            passing_preconditions: passing_preconditions.deep_view(),
            goal_functions: goal_functions.deep_view(),
        }),
{
    Node {
        problem: new_problem,
        subtask_queue: sq,
        called,
        applied_functions: afl,
        hash_table: hs,
        passing_preconditions,
        goal_functions,
    }
}

/// Generates a node of the partially ordered search with the given parts;
/// the state of the node's originating method is copied.
pub fn make_partial_node(new_problem: Problem, sq: Vec<(SubtaskTypes, RelVars, Called, Vec<Precondition>)>, afl: AppliedFunctions, hs: HashSet<u64>, hc: HashMap<u64, usize>, goal_functions: Vec<String>, original_state: &State) -> (res: PartialNode)
    ensures
        res@ == (PartialNodeModel {
            problem: new_problem@,
            subtask_queue: sq.deep_view(),
            applied_functions: afl.deep_view(),
            hash_table: hs@,
            hash_counter: hc@,
            goal_functions: goal_functions.deep_view(),
            original_state: original_state.deep_view(),
        }),
{
    PartialNode {
        problem: new_problem,
        subtask_queue: sq,
        applied_functions: afl,
        hash_table: hs,
        hash_counter: hc,
        goal_functions,
        original_state: clone_state(original_state),
    }
}

// ------------------------------------------------------------------------
// The initial task network.

/// The name given to the relevant variable of a constant argument.
pub open spec fn no_name() -> Str {
    "no name"@
}

/// The objects of a type: declared with it, or with it among their types.
pub open spec fn objects_typed(objects: Seq<(Str, Str, Seq<Str>)>, t: Str) -> Seq<Str>
    decreases objects.len(),
{
    if objects.len() == 0 {
        Seq::empty()
    } else {
        let r = objects_typed(objects.drop_last(), t);
        let o = objects.last();
        if o.1 == t || o.2.contains(t) { r.push(o.0) } else { r }
    }
}

/// The entries of a variable argument: one for every parameter of the
/// network among the first `n` with its name, with all objects of its type.
pub open spec fn htn_param_entries(item: Str, params: Seq<(Str, Str)>, objects: Seq<(Str, Str, Seq<Str>)>, n: int) -> RelVarsModel
    decreases n,
{
    if n <= 0 {
        Seq::empty()
    } else {
        let r = htn_param_entries(item, params, objects, n - 1);
        let p = params[n - 1];
        if p.0 == item { r.push((p.0, p.1, objects_typed(objects, p.1))) } else { r }
    }
}

/// The entries of a constant argument: one for every object among the first
/// `n` with its name, holding just the constant.
pub open spec fn htn_const_entries(item: Str, objects: Seq<(Str, Str, Seq<Str>)>, n: int) -> RelVarsModel
    decreases n,
{
    if n <= 0 {
        Seq::empty()
    } else {
        let r = htn_const_entries(item, objects, n - 1);
        let o = objects[n - 1];
        if o.0 == item { r.push((no_name(), o.1, seq![item])) } else { r }
    }
}

/// The relevant variables of a task of the initial network, argument after argument.
pub open spec fn htn_relvars(args: Seq<Str>, params: Seq<(Str, Str)>, objects: Seq<(Str, Str, Seq<Str>)>) -> RelVarsModel
    decreases args.len(),
{
    if args.len() == 0 {
        Seq::empty()
    } else {
        let a = args.last();
        htn_relvars(args.drop_last(), params, objects) + (if is_var(a) {
            htn_param_entries(a, params, objects, params.len() as int)
        } else {
            htn_const_entries(a, objects, objects.len() as int)
        })
    }
}

fn objects_typed_exec(objects: &Vec<(String, String, Vec<String>)>, t: &String) -> (res: Vec<String>)
    ensures
        res.deep_view() == objects_typed(objects.deep_view(), t@),
{
    let ghost o = objects.deep_view();
    let mut res: Vec<String> = Vec::new();
    let mut i: usize = 0;
    while i < objects.len()
        invariant
            o == objects.deep_view(),
            i <= objects.len(),
            res.deep_view() == objects_typed(o.take(i as int), t@),
        decreases objects.len() - i,
    {
        assert(o.take(i + 1).drop_last() =~= o.take(i as int));
        assert(o[i as int] == objects@[i as int].deep_view());
        let ghost before = res.deep_view();
        if objects[i].1 == *t || contains_string(&objects[i].2, t) {
            res.push(objects[i].0.clone());
            assert(res.deep_view() =~= before.push(o[i as int].0));
        }
        i = i + 1;
    }
    assert(o.take(i as int) =~= o);
    res
}

fn htn_relvars_exec(subtask: &(String, String, Vec<String>), problem: &Problem) -> (res: RelVars)
    ensures
        res.deep_view() == htn_relvars(subtask.2.deep_view(), problem.htn.parameters.deep_view(), problem.objects.deep_view()),
{
    let ghost args = subtask.2.deep_view();
    let ghost params = problem.htn.parameters.deep_view();
    let ghost objs = problem.objects.deep_view();
    let mut res: RelVars = Vec::new();
    let mut i: usize = 0;
    assert(res.deep_view() =~= htn_relvars(args.take(0), params, objs));
    while i < subtask.2.len()
        invariant
            args == subtask.2.deep_view(),
            params == problem.htn.parameters.deep_view(),
            objs == problem.objects.deep_view(),
            i <= subtask.2.len(),
            res.deep_view() == htn_relvars(args.take(i as int), params, objs),
        decreases subtask.2.len() - i,
    {
        assert(args.take(i + 1).drop_last() =~= args.take(i as int));
        assert(args[i as int] == subtask.2@[i as int]@);
        let item = &subtask.2[i];
        let ghost start = res.deep_view();
        if is_variable(item) {
            let mut k: usize = 0;
            while k < problem.htn.parameters.len()
                invariant
                    params == problem.htn.parameters.deep_view(),
                    objs == problem.objects.deep_view(),
                    k <= problem.htn.parameters.len(),
                    res.deep_view() == start + htn_param_entries(item@, params, objs, k as int),
                decreases problem.htn.parameters.len() - k,
            {
                let p = &problem.htn.parameters[k];
                assert(params[k as int] == p.deep_view());
                if *item == p.0 {
                    let vals = objects_typed_exec(&problem.objects, &p.1);
                    let ghost before = res.deep_view();
                    res.push((p.0.clone(), p.1.clone(), vals));
                    assert(res.deep_view() =~= before.push((p.0@, p.1@, objects_typed(objs, p.1@))));
                }
                k = k + 1;
            }
        } else {
            let mut k: usize = 0;
            while k < problem.objects.len()
                invariant
                    objs == problem.objects.deep_view(),
                    k <= problem.objects.len(),
                    res.deep_view() == start + htn_const_entries(item@, objs, k as int),
                decreases problem.objects.len() - k,
            {
                let o = &problem.objects[k];
                assert(objs[k as int] == o.deep_view());
                if o.0 == *item {
                    let mut single: Vec<String> = Vec::new();
                    single.push(item.clone());
                    assert(single.deep_view() =~= seq![item@]);
                    let ghost before = res.deep_view();
                    res.push((string_of("no name"), o.1.clone(), single));
                    assert(res.deep_view() =~= before.push((no_name(), o.1@, seq![item@])));
                }
                k = k + 1;
            }
        }
        i = i + 1;
    }
    assert(args.take(i as int) =~= args);
    res
}

/// Prepare a task of the initial network with its relevant variables and
/// add it to the subtask queue.
pub fn prep_htn_subtasks(htn_subtask_queue: &mut Vec<(SubtaskTypes, RelVars)>, subtask: &(String, String, Vec<String>), new_problem: &Problem)
    ensures
        final(htn_subtask_queue).deep_view() == old(htn_subtask_queue).deep_view().push((SubtaskTypesModel::HtnTask(subtask.deep_view()),
            htn_relvars(subtask.2.deep_view(), new_problem.htn.parameters.deep_view(), new_problem.objects.deep_view()))),
{
    let rv = htn_relvars_exec(subtask, new_problem);
    let ghost before = htn_subtask_queue.deep_view();
    htn_subtask_queue.push((SubtaskTypes::HtnTask((subtask.0.clone(), subtask.1.clone(), clone_strings(&subtask.2))), rv));
    assert(htn_subtask_queue.deep_view() =~= before.push((SubtaskTypesModel::HtnTask(subtask.deep_view()),
        htn_relvars(subtask.2.deep_view(), new_problem.htn.parameters.deep_view(), new_problem.objects.deep_view()))));
}

/// The empty call stack.
pub open spec fn empty_called() -> CalledModel {
    (Seq::empty(), Seq::empty(), Seq::empty())
}

/// Prepare a task of the initial network for the partially ordered search:
/// with its relevant variables, an empty call stack and no passed-on preconditions.
pub fn prep_partial_htn_subtasks(htn_subtask_queue: &mut Vec<(SubtaskTypes, RelVars, Called, Vec<Precondition>)>, subtask: &(String, String, Vec<String>), new_problem: &Problem)
    ensures
        final(htn_subtask_queue).deep_view() == old(htn_subtask_queue).deep_view().push((SubtaskTypesModel::HtnTask(subtask.deep_view()),
            htn_relvars(subtask.2.deep_view(), new_problem.htn.parameters.deep_view(), new_problem.objects.deep_view()),
            empty_called(), Seq::empty())),
{
    let rv = htn_relvars_exec(subtask, new_problem);
    let called: Called = (Vec::new(), Vec::new(), Vec::new());
    let pres: Vec<Precondition> = Vec::new();
    assert(called.deep_view() =~= empty_called());
    assert(pres.deep_view() =~= Seq::empty());
    let ghost before = htn_subtask_queue.deep_view();
    htn_subtask_queue.push((SubtaskTypes::HtnTask((subtask.0.clone(), subtask.1.clone(), clone_strings(&subtask.2))), rv, called, pres));
    assert(htn_subtask_queue.deep_view() =~= before.push((SubtaskTypesModel::HtnTask(subtask.deep_view()),
        htn_relvars(subtask.2.deep_view(), new_problem.htn.parameters.deep_view(), new_problem.objects.deep_view()),
        empty_called(), Seq::empty())));
}

// ------------------------------------------------------------------------
// Actions that would change nothing.

/// Whether a fact matches a positive effect: the same predicate, and at every
/// argument each relevant variable named like the effect's argument has the
/// fact's argument as its first value.
pub open spec fn fact_matches_effect(fact: (Str, Seq<Str>), e: EffectModel, rv: RelVarsModel) -> bool {
    &&& fact.0 == e.1
    &&& forall|k: int, j: int| 0 <= k < e.2.len() && 0 <= j < rv.len() && (#[trigger] rv[j]).0 == #[trigger] e.2[k] ==> fact.1[k] == rv[j].2[0]
}

/// Whether an effect adds nothing: it is positive, has arguments, and a fact of the state already matches it.
pub open spec fn effect_adds_nothing(e: EffectModel, state: StateModel, rv: RelVarsModel) -> bool {
    &&& e.0
    &&& e.2.len() > 0
    &&& exists|i: int| 0 <= i < state.len() && fact_matches_effect(#[trigger] state[i], e, rv)
}

/// Whether applying an action with the first values of the relevant variables
/// would change nothing: no effect repeats a precondition, and every effect adds nothing.
pub open spec fn action_adds_nothing(a: ActionModel, state: StateModel, rv: RelVarsModel) -> bool {
    &&& !effect_repeats_precondition(a)
    &&& forall|k: int| 0 <= k < a.effect.unwrap().len() ==> effect_adds_nothing(#[trigger] a.effect.unwrap()[k], state, rv)
}

/// The inputs on which reading an action's effects against the state reads
/// no missing item: the action has effects, an effect has no more arguments
/// than a precondition of the same predicate, and facts of an effect's
/// predicate have at least its arguments.
pub open spec fn effects_checkable(a: ActionModel, state: StateModel) -> bool {
    &&& a.effect is Some
    &&& effect_arities_fit(a)
    &&& forall|k: int, i: int| 0 <= k < a.effect.unwrap().len() && 0 <= i < state.len() && (#[trigger] state[i]).0 == (#[trigger] a.effect.unwrap()[k]).1
        ==> state[i].1.len() >= a.effect.unwrap()[k].2.len()
}

/// The inputs on which the check reads no missing value: the action has
/// effects, facts of an effect's predicate have at least its arguments, and
/// a relevant variable named like an effect's argument has a value.
pub open spec fn nothing_checkable(a: ActionModel, state: StateModel, rv: RelVarsModel) -> bool {
    &&& effects_checkable(a, state)
    &&& forall|k: int, q: int, j: int| 0 <= k < a.effect.unwrap().len() && 0 <= q < a.effect.unwrap()[k].2.len() && 0 <= j < rv.len()
        && (#[trigger] rv[j]).0 == #[trigger] a.effect.unwrap()[k].2[q] ==> rv[j].2.len() > 0
}

fn fact_matches_effect_exec(fact: &(String, Vec<String>), e: &(bool, String, Vec<String>), rv: &RelVars) -> (res: bool)
    requires
        fact.0@ == e.1@ ==> fact.1.len() >= e.2.len(),
        forall|q: int, j: int| 0 <= q < e.2.len() && 0 <= j < rv.len() && (#[trigger] rv.deep_view()[j]).0 == #[trigger] e.2.deep_view()[q] ==> rv.deep_view()[j].2.len() > 0,
    ensures
        res == fact_matches_effect(fact.deep_view(), e.deep_view(), rv.deep_view()),
{
    let ghost ev = e.deep_view();
    let ghost fv = fact.deep_view();
    let ghost s = rv.deep_view();
    if e.1 != fact.0 {
        return false;
    }
    let mut k: usize = 0;
    while k < e.2.len()
        invariant
            ev == e.deep_view(),
            fv == fact.deep_view(),
            s == rv.deep_view(),
            fact.1.len() >= e.2.len(),
            forall|q: int, j: int| 0 <= q < e.2.len() && 0 <= j < rv.len() && (#[trigger] s[j]).0 == #[trigger] ev.2[q] ==> s[j].2.len() > 0,
            k <= e.2.len(),
            forall|q: int, j: int| 0 <= q < k && 0 <= j < rv.len() && (#[trigger] s[j]).0 == #[trigger] ev.2[q] ==> fv.1[q] == s[j].2[0],
        decreases e.2.len() - k,
    {
        assert(ev.2[k as int] == e.2@[k as int]@);
        assert(fv.1[k as int] == fact.1@[k as int]@);
        let mut j: usize = 0;
        while j < rv.len()
            invariant
                ev == e.deep_view(),
                fv == fact.deep_view(),
                s == rv.deep_view(),
                fact.1.len() >= e.2.len(),
                forall|q: int, j: int| 0 <= q < e.2.len() && 0 <= j < rv.len() && (#[trigger] s[j]).0 == #[trigger] ev.2[q] ==> s[j].2.len() > 0,
                k < e.2.len(),
                j <= rv.len(),
                forall|q: int, i: int| 0 <= q < k && 0 <= i < rv.len() && (#[trigger] s[i]).0 == #[trigger] ev.2[q] ==> fv.1[q] == s[i].2[0],
                forall|i: int| 0 <= i < j && (#[trigger] s[i]).0 == ev.2[k as int] ==> fv.1[k as int] == s[i].2[0],
            decreases rv.len() - j,
        {
            assert(s[j as int] == rv@[j as int].deep_view());
            if e.2[k] == rv[j].0 {
                assert(s[j as int].2.len() > 0);
                assert(s[j as int].2[0] == rv@[j as int].2@[0]@);
                if fact.1[k] != rv[j].2[0] {
                    return false;
                }
            }
            j = j + 1;
        }
        k = k + 1;
    }
    true
}

/// Whether applying an action with the first values of its relevant
/// variables would change nothing in the state.
pub fn action_would_result_in_nothing(relevant_variables: &RelVars, action: &Action, state: &Vec<(String, Vec<String>)>) -> (res: bool)
    requires
        nothing_checkable(action@, state.deep_view(), relevant_variables.deep_view()),
    ensures
        res == action_adds_nothing(action@, state.deep_view(), relevant_variables.deep_view()),
{
    if effect_is_in_precons(action) {
        return false;
    }
    let ghost st = state.deep_view();
    let ghost s = relevant_variables.deep_view();
    let effects = match &action.effect {
        Some(e) => e,
        None => {
            return false;
        },
    };
    let ghost ev = effects.deep_view();
    assert(action@.effect == Some(ev));
    let mut k: usize = 0;
    while k < effects.len()
        invariant
            st == state.deep_view(),
            s == relevant_variables.deep_view(),
            ev == effects.deep_view(),
            action@.effect == Some(ev),
            nothing_checkable(action@, st, s),
            k <= effects.len(),
            forall|q: int| 0 <= q < k ==> effect_adds_nothing(#[trigger] ev[q], st, s),
        decreases effects.len() - k,
    {
        let e = &effects[k];
        assert(ev[k as int] == e.deep_view());
        if !e.0 || e.2.len() == 0 {
            assert(!effect_adds_nothing(ev[k as int], st, s));
            assert(action@.effect.unwrap()[k as int] == ev[k as int]);
            return false;
        }
        proof {
            let a = action@;
            assert(a.effect.unwrap() == ev);
            assert(a.effect.unwrap()[k as int] == e.deep_view());
            assert forall|q: int, j: int| 0 <= q < e.2.len() && 0 <= j < s.len() && (#[trigger] s[j]).0 == #[trigger] e.2.deep_view()[q]
                implies s[j].2.len() > 0 by {
                assert(a.effect.unwrap()[k as int].2[q] == e.2.deep_view()[q]);
            }
            assert forall|i: int| 0 <= i < st.len() && (#[trigger] st[i]).0 == ev[k as int].1 implies st[i].1.len() >= ev[k as int].2.len() by {
                assert(a.effect.unwrap()[k as int] == ev[k as int]);
            }
        }
        let mut found = false;
        let mut i: usize = 0;
        while i < state.len() && !found
            invariant
                st == state.deep_view(),
                s == relevant_variables.deep_view(),
                ev == effects.deep_view(),
                action@.effect == Some(ev),
                nothing_checkable(action@, st, s),
                k < effects.len(),
                ev[k as int] == e.deep_view(),
                forall|q: int, j: int| 0 <= q < e.2.len() && 0 <= j < s.len() && (#[trigger] s[j]).0 == #[trigger] e.2.deep_view()[q] ==> s[j].2.len() > 0,
                forall|i: int| 0 <= i < st.len() && (#[trigger] st[i]).0 == ev[k as int].1 ==> st[i].1.len() >= ev[k as int].2.len(),
                i <= state.len(),
                found ==> exists|q: int| 0 <= q < st.len() && fact_matches_effect(#[trigger] st[q], ev[k as int], s),
                !found ==> forall|q: int| 0 <= q < i ==> !fact_matches_effect(#[trigger] st[q], ev[k as int], s),
            decreases state.len() - i,
        {
            assert(st[i as int] == state@[i as int].deep_view());
            assert(st[i as int].0 == ev[k as int].1 ==> st[i as int].1.len() >= ev[k as int].2.len());
            if fact_matches_effect_exec(&state[i], e, relevant_variables) {
                found = true;
            }
            i = i + 1;
        }
        if !found {
            assert(!effect_adds_nothing(ev[k as int], st, s));
            assert(action@.effect.unwrap()[k as int] == ev[k as int]);
            return false;
        }
        k = k + 1;
    }
    true
}

/// Whether applying an action with the values a permutation picks would
/// change nothing in the state.
pub fn permutation_would_result_in_nothing(permutation: &Vec<usize>, relevant_variables: &RelVars, action: &Action, state: &Vec<(String, Vec<String>)>) -> (res: bool)
    requires
        permutation.len() >= relevant_variables.len(),
        forall|i: int| 0 <= i < relevant_variables.len() ==> permutation@[i] < (#[trigger] relevant_variables@[i]).2.len(),
        effects_checkable(action@, state.deep_view()),
    ensures
        res == action_adds_nothing(action@, state.deep_view(), chosen(relevant_variables.deep_view(), permutation@)),
{
    let ghost s = relevant_variables.deep_view();
    let ghost c = chosen(s, permutation@);
    let mut picked: RelVars = Vec::new();
    let mut i: usize = 0;
    while i < relevant_variables.len()
        invariant
            s == relevant_variables.deep_view(),
            c == chosen(s, permutation@),
            permutation.len() >= relevant_variables.len(),
            forall|k: int| 0 <= k < relevant_variables.len() ==> permutation@[k] < (#[trigger] relevant_variables@[k]).2.len(),
            i <= relevant_variables.len(),
            picked.deep_view() == c.take(i as int),
        decreases relevant_variables.len() - i,
    {
        let val = &relevant_variables[i];
        assert(s[i as int] == val.deep_view());
        assert(s[i as int].2[permutation@[i as int] as int] == val.2@[permutation@[i as int] as int]@);
        let mut one: Vec<String> = Vec::new();
        one.push(val.2[permutation[i]].clone());
        assert(one.deep_view() =~= seq![s[i as int].2[permutation@[i as int] as int]]);
        let ghost before = picked.deep_view();
        picked.push((val.0.clone(), val.1.clone(), one));
        assert(picked.deep_view() =~= before.push(c[i as int]));
        assert(c.take(i + 1) =~= c.take(i as int).push(c[i as int]));
        i = i + 1;
    }
    assert(c.take(i as int) =~= c);
    proof {
        let a = action@;
        let es = a.effect.unwrap();
        assert forall|k: int, q: int, j: int| 0 <= k < es.len() && 0 <= q < es[k].2.len() && 0 <= j < c.len()
            && (#[trigger] c[j]).0 == #[trigger] es[k].2[q] implies c[j].2.len() > 0 by {}
    }
    action_would_result_in_nothing(&picked, action, state)
}

// ------------------------------------------------------------------------
// Recognising states that were seen before.

/// The hash of a node's state, subtask queue and subtask indexes.
pub uninterp spec fn node_key_hash(state: StateModel, queue: Seq<(SubtaskTypesModel, RelVarsModel)>, indexes: Seq<usize>) -> u64;

/// The hash of a partial node's state, its subtasks' names, relevant
/// variables and subtask indexes, and the index of the subtask tried.
pub uninterp spec fn partial_key_hash(state: StateModel, entries: Seq<(Str, RelVarsModel, usize)>, index: usize) -> u64;

/// Hashes a state, a subtask queue and subtask indexes with std's
/// `DefaultHasher` (created by `new`, so unseeded) and the derived `Hash`
/// impls: within one build for one target the result depends on these values
/// alone, which `node_key_hash` names. The algorithm is not promised across
/// Rust releases, and `usize` values and lengths hash differently on 32-bit
/// and 64-bit targets; the hashes are only compared within one run.
#[verifier::external_body]
fn hash_node_key(state: &State, queue: &Vec<(SubtaskTypes, RelVars)>, indexes: &Vec<usize>) -> (res: u64)
    ensures
        res == node_key_hash(state.deep_view(), queue.deep_view(), indexes.deep_view()),
{
    let mut hasher = std::collections::hash_map::DefaultHasher::new();
    (state, queue, indexes).hash(&mut hasher);
    hasher.finish()
}

/// Hashes a state, a list of subtask entries and an index with std's
/// unseeded `DefaultHasher` and the derived `Hash` impls: within one build
/// for one target the result depends on these values alone, which
/// `partial_key_hash` names (see `hash_node_key` on what is not promised).
#[verifier::external_body]
fn hash_partial_key(state: &State, entries: &Vec<(String, RelVars, usize)>, index: usize) -> (res: u64)
    ensures
        res == partial_key_hash(state.deep_view(), entries.deep_view(), index),
{
    let mut hasher = std::collections::hash_map::DefaultHasher::new();
    (state, entries, index).hash(&mut hasher);
    hasher.finish()
}

/// The hash under which a node is recorded.
pub open spec fn node_hash(n: NodeModel) -> u64 {
    node_key_hash(n.problem.state, n.subtask_queue, n.called.2)
}

/// Hashes the state and returns whether it is a duplicate state; a new
/// state's hash is recorded.
pub fn hash_state(current_node: &mut Node) -> (res: bool)
    ensures
        res == old(current_node)@.hash_table.contains(node_hash(old(current_node)@)),
        final(current_node)@ == (NodeModel { hash_table: old(current_node)@.hash_table.insert(node_hash(old(current_node)@)), ..old(current_node)@ }),
{
    let hash = hash_node_key(&current_node.problem.state, &current_node.subtask_queue, &current_node.called.2);
    if current_node.hash_table.contains(&hash) {
        assert(old(current_node)@.hash_table.insert(hash) =~= old(current_node)@.hash_table);
        return true;
    }
    current_node.hash_table.insert(hash);
    false
}

/// The entries that identify a partial node's subtasks: the name of each
/// method or action with its relevant variables and its subtask index; `None`
/// when an entry is a task, or when a method or action has no subtask index.
pub open spec fn partial_entries(q: Seq<(SubtaskTypesModel, RelVarsModel, CalledModel, Seq<crate::datastructures::domain::PreconditionModel>)>, n: int) -> Option<Seq<(Str, RelVarsModel, usize)>>
    decreases n,
{
    if n <= 0 {
        Some(Seq::empty())
    } else {
        match partial_entries(q, n - 1) {
            Some(r) => {
                let e = q[n - 1];
                match e.0 {
                    SubtaskTypesModel::Method(m) => if e.2.2.len() > 0 { Some(r.push((m.name, e.1, e.2.2.last()))) } else { None },
                    SubtaskTypesModel::Action(a) => if e.2.2.len() > 0 { Some(r.push((a.name, e.1, e.2.2.last()))) } else { None },
                    _ => None,
                }
            },
            None => None,
        }
    }
}

/// Whether the scan of a partial node's subtasks stops at a task before it
/// meets a method or action without a subtask index.
pub open spec fn partial_scan_stops(q: Seq<(SubtaskTypesModel, RelVarsModel, CalledModel, Seq<crate::datastructures::domain::PreconditionModel>)>, n: int) -> bool
    decreases n,
{
    if n <= 0 {
        false
    } else if partial_scan_stops(q, n - 1) {
        true
    } else {
        match q[n - 1].0 {
            SubtaskTypesModel::Method(_) => false,
            SubtaskTypesModel::Action(_) => false,
            _ => partial_entries(q, n - 1) is Some,
        }
    }
}

/// The inputs on which `partial_hash_state` reads no missing index: every
/// method or action before the first task has a subtask index.
pub open spec fn partial_hashable(q: Seq<(SubtaskTypesModel, RelVarsModel, CalledModel, Seq<crate::datastructures::domain::PreconditionModel>)>) -> bool {
    partial_scan_stops(q, q.len() as int) || partial_entries(q, q.len() as int) is Some
}

/// What `partial_hash_state` does to the node and answers: a node with a
/// task in its queue is never a duplicate; a new hash is recorded with count
/// 1; a known hash is a duplicate when the limit is 0, and otherwise its
/// count grows while it is at most the limit and it is a duplicate beyond.
pub open spec fn partial_hash_result(n: PartialNodeModel, index: usize, limit: usize) -> (PartialNodeModel, bool) {
    if partial_scan_stops(n.subtask_queue, n.subtask_queue.len() as int) {
        (n, false)
    } else {
        let h = partial_key_hash(n.problem.state, partial_entries(n.subtask_queue, n.subtask_queue.len() as int).unwrap(), index);
        if n.hash_table.contains(h) {
            if limit == 0 {
                (n, true)
            } else if n.hash_counter.contains_key(h) {
                if limit >= n.hash_counter[h] {
                    (PartialNodeModel { hash_counter: n.hash_counter.insert(h, (n.hash_counter[h] + 1) as usize), ..n }, false)
                } else {
                    (n, true)
                }
            } else {
                (n, false)
            }
        } else {
            (PartialNodeModel { hash_table: n.hash_table.insert(h), hash_counter: n.hash_counter.insert(h, 1), ..n }, false)
        }
    }
}

/// Hashes the state and the subtasks of a partial node and says whether it
/// is a duplicate that has been tried more often than the limit allows.
pub fn partial_hash_state(current_node: &mut PartialNode, subtask_queue_index: usize, hash_limit: usize) -> (res: bool)
    requires
        partial_hashable(old(current_node)@.subtask_queue),
        hash_limit < usize::MAX,
    ensures
        (final(current_node)@, res) == partial_hash_result(old(current_node)@, subtask_queue_index, hash_limit),
{
    let ghost q = current_node@.subtask_queue;
    let mut entries: Vec<(String, RelVars, usize)> = Vec::new();
    let mut k: usize = 0;
    while k < current_node.subtask_queue.len()
        invariant
            q == current_node@.subtask_queue,
            current_node@ == old(current_node)@,
            partial_hashable(q),
            k <= current_node.subtask_queue.len(),
            !partial_scan_stops(q, k as int),
            partial_entries(q, k as int) == Some(entries.deep_view()),
        decreases current_node.subtask_queue.len() - k,
    {
        let st = &current_node.subtask_queue[k];
        assert(q[k as int] == st.deep_view());
        match &st.0 {
            SubtaskTypes::Method(m) => {
                assert(q[k as int].0 == SubtaskTypesModel::Method(m@));
                proof { lemma_scan_continues(q, k as int + 1, q.len() as int); }
                let idx = st.2.2[st.2.2.len() - 1];
                let ghost before = entries.deep_view();
                entries.push((m.name.clone(), clone_relvars(&st.1), idx));
                assert(entries.deep_view() =~= before.push((m@.name, st.1.deep_view(), idx)));
            },
            SubtaskTypes::Action(a) => {
                assert(q[k as int].0 == SubtaskTypesModel::Action(a@));
                proof { lemma_scan_continues(q, k as int + 1, q.len() as int); }
                let idx = st.2.2[st.2.2.len() - 1];
                let ghost before = entries.deep_view();
                entries.push((a.name.clone(), clone_relvars(&st.1), idx));
                assert(entries.deep_view() =~= before.push((a@.name, st.1.deep_view(), idx)));
            },
            _ => {
                assert(partial_scan_stops(q, k as int + 1));
                proof { lemma_scan_stops_monotone(q, k as int + 1, q.len() as int); }
                return false;
            },
        }
        k = k + 1;
    }
    let hash = hash_partial_key(&current_node.problem.state, &entries, subtask_queue_index);
    if current_node.hash_table.contains(&hash) {
        if hash_limit == 0 {
            return true;
        }
        match current_node.hash_counter.get(&hash) {
            Some(counter) => {
                let c = *counter;
                if hash_limit >= c {
                    current_node.hash_counter.insert(hash, c + 1);
                } else {
                    return true;
                }
            },
            None => {},
        }
    } else {
        current_node.hash_table.insert(hash);
        current_node.hash_counter.insert(hash, 1);
    }
    false
}

proof fn lemma_scan_stops_monotone(q: Seq<(SubtaskTypesModel, RelVarsModel, CalledModel, Seq<crate::datastructures::domain::PreconditionModel>)>, n: int, m: int)
    requires
        0 <= n <= m,
        partial_scan_stops(q, n),
    ensures
        partial_scan_stops(q, m),
    decreases m - n,
{
    if n < m {
        lemma_scan_stops_monotone(q, n, m - 1);
    }
}

/// Where the scan neither stopped nor failed, a method or action met has an index.
proof fn lemma_scan_continues(q: Seq<(SubtaskTypesModel, RelVarsModel, CalledModel, Seq<crate::datastructures::domain::PreconditionModel>)>, n: int, m: int)
    requires
        1 <= n <= m <= q.len(),
        partial_scan_stops(q, m) || partial_entries(q, m) is Some,
        !partial_scan_stops(q, n - 1),
        partial_entries(q, n - 1) is Some,
        !(q[n - 1].0 is HtnTask || q[n - 1].0 is Task),
    ensures
        q[n - 1].2.2.len() > 0,
    decreases m - n,
{
    if q[n - 1].2.2.len() == 0 {
        assert(partial_entries(q, n) is None);
        assert(!partial_scan_stops(q, n));
        lemma_entries_none(q, n, m);
        lemma_no_stop_after_none(q, n, m);
    }
}

proof fn lemma_entries_none(q: Seq<(SubtaskTypesModel, RelVarsModel, CalledModel, Seq<crate::datastructures::domain::PreconditionModel>)>, n: int, m: int)
    requires
        0 <= n <= m,
        partial_entries(q, n) is None,
    ensures
        partial_entries(q, m) is None,
    decreases m - n,
{
    if n < m {
        lemma_entries_none(q, n, m - 1);
    }
}

proof fn lemma_no_stop_after_none(q: Seq<(SubtaskTypesModel, RelVarsModel, CalledModel, Seq<crate::datastructures::domain::PreconditionModel>)>, n: int, m: int)
    requires
        0 <= n <= m,
        partial_entries(q, n) is None,
        !partial_scan_stops(q, n),
    ensures
        !partial_scan_stops(q, m),
    decreases m - n,
{
    if n < m {
        lemma_no_stop_after_none(q, n, m - 1);
        lemma_entries_none(q, n, m - 1);
    }
}

} // verus!
