//! Properties that hold across the planner's operations.
use vstd::prelude::*;
use crate::datastructures::domain::{Str, DomainModel, MethodModel, ActionModel, EffectModel, PreconditionModel};
use crate::datastructures::node::{NodeModel, PartialNodeModel, RelVarsModel, CalledModel};
use crate::datastructures::problem::{ProblemModel, StateModel};
use crate::toolbox::effect::{effect_on_state, effect_values, fact_is, first_fact};
use crate::toolbox::nodes::{node_hash, partial_hashable};
use crate::toolbox::precondition::{permutation_result, cleanup_fold, clearing_perms, index_tuples, value_sizes, in_bounds, all_hold, chosen, lemma_index_tuples_bounds, lemma_index_tuples_complete};
use crate::perform::method::{total_method_result, total_entry, variant_node};
use crate::perform::action::{total_cdcl_result, total_perform_result, returned_perm_nodes, action_perms};
use crate::perform::partial::method::partial_method_result;
use crate::perform::partial::action::partial_action_result;
use crate::perform::partial::task::{partial_task_result, task_method_nodes};
use crate::perform::partial::htn::{partial_htn_result, htn_method_nodes, htn_action_nodes};
use crate::perform::htn::{total_htn_result, total_htn_method_nodes, total_htn_action_nodes};
use crate::search::{partial_step, step_dispatch, StepKind};
use crate::toolbox::nodes::{partial_hash_result, partial_key_hash, partial_entries, partial_scan_stops};
use crate::toolbox::goal_reached;
use crate::toolbox::precondition::{forall_trim, forall_trimmable, forall_lists, sizes_of, tuple_found, tuple_values, forall_count, position_hit, forall_matched, precondition_holds, objects_declared, names_distinct};
use crate::toolbox::relvars::{has_name, first_named};
use crate::text::is_var;
use crate::toolbox::precondition::{match_count, count_of, supports, literal_holds, arg_values, relvar_setup, setup_lists, kept, write_lists, literal_trim, trim_step, trim_pass, trim_rounds, trimmer_result, trim_fuel, same_names, all_variables, variables_only, lemma_same_names_props, lemma_same_names_trans, lemma_setup, lemma_write_lists_names, lemma_variables_only_prefix, lemma_literal_trim_names};
use crate::toolbox::domain_ops::{apply_method_trims, methods_not_named, key_index, has_key, table_keyed, trims_keyed, table_trims, predicate_needed, lemma_trims_keyed, table_methods_calling, methods_calling, method_calls_any, effect_trimmed, effects_trim, actions_trim, action_index, sole_call, list_trims_full, table_filed};
use crate::toolbox::constraints::{constraint_result, constraint_stage, constraints_fold, check_constraints_result, equal_branches, equal_branches_for, dropped_in, kept_in, constraint_unequal_result, unequal_branches, first_occurrence, first_index, second_index, with_values, lemma_kept_in_contained, lemma_kept_in_from_first};

verus! {

/// The parts of a problem that planning never changes: everything but the state.
pub open spec fn same_frame(p: ProblemModel, q: ProblemModel) -> bool {
    &&& q.name == p.name
    &&& q.domain == p.domain
    &&& q.objects == p.objects
    &&& q.htn == p.htn
    &&& q.goal == p.goal
}

/// A state checked once is known when it is checked again: after
/// `hash_state` records a node, the node it leaves is reported as seen.
pub proof fn law_hash_state_remembers(n: NodeModel)
    ensures
        ({
            let n1 = NodeModel { hash_table: n.hash_table.insert(node_hash(n)), ..n };
            n1.hash_table.contains(node_hash(n1))
        }),
{
}

/// A positive effect adds its fact with the values of its arguments, and
/// every fact of the state stays.
pub proof fn law_positive_effect_adds(state: StateModel, effect: EffectModel, params: RelVarsModel)
    requires
        effect.0,
    ensures
        effect_on_state(state, effect, params).contains((effect.1, effect_values(effect.2, params))),
        forall|k: int| 0 <= k < state.len() ==> effect_on_state(state, effect, params).contains(#[trigger] state[k]),
{
    let r = effect_on_state(state, effect, params);
    assert(r[state.len() as int] == (effect.1, effect_values(effect.2, params)));
    assert forall|k: int| 0 <= k < state.len() implies r.contains(#[trigger] state[k]) by {
        assert(r[k] == state[k]);
    }
}

proof fn lemma_first_fact(state: StateModel, name: Str, values: Seq<Str>, k: int)
    requires
        0 <= k < state.len(),
        fact_is(state[k], name, values),
    ensures
        0 <= first_fact(state, name, values) < state.len(),
        fact_is(state[first_fact(state, name, values)], name, values),
    decreases k,
{
    if exists|j: int| 0 <= j < k && fact_is(#[trigger] state[j], name, values) {
        let j = choose|j: int| 0 <= j < k && fact_is(#[trigger] state[j], name, values);
        lemma_first_fact(state, name, values, j);
    } else {
        assert(0 <= k < state.len() && fact_is(state[k], name, values)
            && forall|j: int| 0 <= j < k ==> !fact_is(#[trigger] state[j], name, values));
    }
}

/// A negative effect deletes its fact: when the fact occurs at most once in
/// the state, it no longer occurs afterwards, and every other fact stays.
pub proof fn law_negative_effect_deletes(state: StateModel, effect: EffectModel, params: RelVarsModel)
    requires
        !effect.0,
        forall|i: int, j: int| 0 <= i < state.len() && 0 <= j < state.len()
            && fact_is(#[trigger] state[i], effect.1, effect_values(effect.2, params))
            && fact_is(#[trigger] state[j], effect.1, effect_values(effect.2, params)) ==> i == j,
    ensures
        !exists|k: int| 0 <= k < effect_on_state(state, effect, params).len()
            && fact_is(#[trigger] effect_on_state(state, effect, params)[k], effect.1, effect_values(effect.2, params)),
        forall|k: int| 0 <= k < state.len() && !fact_is(#[trigger] state[k], effect.1, effect_values(effect.2, params))
            ==> effect_on_state(state, effect, params).contains(state[k]),
{
    let values = effect_values(effect.2, params);
    let r = effect_on_state(state, effect, params);
    if exists|k: int| 0 <= k < state.len() && fact_is(#[trigger] state[k], effect.1, values) {
        let k0 = choose|k: int| 0 <= k < state.len() && fact_is(#[trigger] state[k], effect.1, values);
        lemma_first_fact(state, effect.1, values, k0);
        let f = first_fact(state, effect.1, values);
        assert(r == state.remove(f));
        assert forall|k: int| 0 <= k < r.len() implies !fact_is(#[trigger] r[k], effect.1, values) by {
            if k < f {
                assert(r[k] == state[k]);
                if fact_is(state[k], effect.1, values) { assert(k == f); }
            } else {
                assert(r[k] == state[k + 1]);
                if fact_is(state[k + 1], effect.1, values) { assert(k + 1 == f); }
            }
        }
        assert forall|k: int| 0 <= k < state.len() && !fact_is(#[trigger] state[k], effect.1, values) implies r.contains(state[k]) by {
            if k < f {
                assert(r[k] == state[k]);
            } else {
                assert(k != f);
                assert(r[k - 1] == state[k]);
            }
        }
    } else {
        assert forall|k: int| 0 <= k < state.len() && !fact_is(#[trigger] state[k], effect.1, values) implies r.contains(state[k]) by {
            assert(r[k] == state[k]);
        }
    }
}

proof fn lemma_clearing_perms(ts: Seq<Seq<usize>>, pres: Seq<PreconditionModel>, nrv: RelVarsModel, problem: ProblemModel, n: int)
    requires
        n <= ts.len(),
    ensures
        forall|k: int| 0 <= k < clearing_perms(ts, pres, nrv, problem, n).len() ==> {
            let p = #[trigger] clearing_perms(ts, pres, nrv, problem, n)[k];
            &&& ts.contains(p)
            &&& all_hold(pres, chosen(nrv, p), problem)
        },
        forall|k: int| 0 <= k < n && all_hold(pres, chosen(nrv, ts[k]), problem)
            ==> clearing_perms(ts, pres, nrv, problem, n).contains(#[trigger] ts[k]),
    decreases n,
{
    if n > 0 {
        lemma_clearing_perms(ts, pres, nrv, problem, n - 1);
        let r = clearing_perms(ts, pres, nrv, problem, n - 1);
        assert forall|k: int| 0 <= k < clearing_perms(ts, pres, nrv, problem, n).len() implies {
            let p = #[trigger] clearing_perms(ts, pres, nrv, problem, n)[k];
            &&& ts.contains(p)
            &&& all_hold(pres, chosen(nrv, p), problem)
        } by {
            if k < r.len() {
                assert(clearing_perms(ts, pres, nrv, problem, n)[k] == r[k]);
            } else {
                assert(ts[n - 1] == clearing_perms(ts, pres, nrv, problem, n)[k]);
            }
        }
        assert forall|k: int| 0 <= k < n && all_hold(pres, chosen(nrv, ts[k]), problem)
            implies clearing_perms(ts, pres, nrv, problem, n).contains(#[trigger] ts[k]) by {
            if k < n - 1 {
                let j = choose|j: int| 0 <= j < r.len() && r[j] == ts[k];
                assert(clearing_perms(ts, pres, nrv, problem, n)[j] == ts[k]);
            } else {
                assert(clearing_perms(ts, pres, nrv, problem, n)[r.len() as int] == ts[k]);
            }
        }
    }
}

/// Actions are applied only with values that satisfy their preconditions:
/// when the cleaned relevant variables all have values and there are
/// preconditions, every permutation that `permutation_tool` gives picks a
/// value of each variable, and the values it picks satisfy every
/// precondition; and every such choice of values is given.
pub proof fn law_permutations_clear_preconditions(rv: RelVarsModel, pres: Seq<PreconditionModel>, state: StateModel, problem: ProblemModel)
    requires
        cleanup_fold(rv, pres, state, pres.len() as int) is Some,
        pres.len() > 0,
    ensures
        ({
            let r = permutation_result(rv, pres, state, problem);
            let nrv = r.1;
            forall|k: int| 0 <= k < r.0.len() ==> {
                let p = #[trigger] r.0[k];
                &&& in_bounds(p, value_sizes(nrv))
                &&& all_hold(pres, chosen(nrv, p), problem)
            }
        }),
        ({
            let r = permutation_result(rv, pres, state, problem);
            let nrv = r.1;
            (nrv.len() > 0 && forall|j: int| 0 <= j < nrv.len() ==> (#[trigger] nrv[j]).2.len() > 0) ==>
                forall|p: Seq<usize>| in_bounds(p, value_sizes(nrv)) && all_hold(pres, chosen(nrv, p), problem)
                    ==> r.0.contains(p)
        }),
{
    let r = permutation_result(rv, pres, state, problem);
    let nrv = cleanup_fold(rv, pres, state, pres.len() as int).unwrap();
    assert(r.1 == nrv);
    if nrv.len() > 0 && !exists|j: int| 0 <= j < nrv.len() && (#[trigger] nrv[j]).2.len() == 0 {
        let ts = index_tuples(value_sizes(nrv));
        lemma_clearing_perms(ts, pres, nrv, problem, ts.len() as int);
        lemma_index_tuples_bounds(value_sizes(nrv));
        assert forall|k: int| 0 <= k < r.0.len() implies {
            let p = #[trigger] r.0[k];
            &&& in_bounds(p, value_sizes(nrv))
            &&& all_hold(pres, chosen(nrv, p), problem)
        } by {
            let p = r.0[k];
            let j = choose|j: int| 0 <= j < ts.len() && ts[j] == p;
            assert(in_bounds(ts[j], value_sizes(nrv)));
        }
        assert forall|p: Seq<usize>| in_bounds(p, value_sizes(nrv)) && all_hold(pres, chosen(nrv, p), problem)
            implies r.0.contains(p) by {
            lemma_index_tuples_complete(value_sizes(nrv), p);
            let j = choose|j: int| 0 <= j < ts.len() && ts[j] == p;
        }
    }
}

/// Methods never change the problem: every node that performing a method
/// pushes has the problem of the node it came from.
pub proof fn law_method_keeps_problem(n: NodeModel, d: DomainModel, m: MethodModel, rv: RelVarsModel)
    ensures
        forall|k: int| 0 <= k < total_method_result(n, d, m, rv).len() ==> (#[trigger] total_method_result(n, d, m, rv)[k]).problem == n.problem,
{
    let r = total_method_result(n, d, m, rv);
    if total_entry(n, m, rv) is Some {
        let l = total_entry(n, m, rv).unwrap();
        assert forall|k: int| 0 <= k < r.len() implies (#[trigger] r[k]).problem == n.problem by {
            if k < l.len() - 1 {
                assert(r[k] == variant_node(NodeModel { called: (n.called.0, n.called.1, n.called.2.drop_last()), ..n }, m, l[k]));
            }
        }
    }
}

/// Methods never change the problem, in the partially ordered search too.
pub proof fn law_partial_method_keeps_problem(n: PartialNodeModel, m: MethodModel, rv: RelVarsModel, called: CalledModel, sqi: int, passing: Seq<PreconditionModel>)
    ensures
        forall|k: int| 0 <= k < partial_method_result(n, m, rv, called, sqi, passing).0.len()
            ==> (#[trigger] partial_method_result(n, m, rv, called, sqi, passing).0[k]).problem == n.problem,
{
}

/// Actions change nothing of the problem but its state: every node that
/// performing an action pushes has the name, domain, objects, initial
/// network and goal of the problem it came from.
pub proof fn law_action_keeps_frame(n: NodeModel, a: ActionModel, rv: RelVarsModel)
    ensures
        forall|k: int| 0 <= k < total_cdcl_result(n, a, rv).len() ==> same_frame(n.problem, (#[trigger] total_cdcl_result(n, a, rv)[k]).problem),
{
}

proof fn lemma_returned_perm_nodes_frame(n: NodeModel, a: ActionModel, rv: RelVarsModel, perms: Seq<Seq<usize>>, erv: RelVarsModel, k: int)
    ensures
        forall|q: int| 0 <= q < returned_perm_nodes(n, a, rv, perms, erv, k).len()
            ==> same_frame(n.problem, (#[trigger] returned_perm_nodes(n, a, rv, perms, erv, k)[q]).problem),
    decreases k,
{
    if k > 0 {
        lemma_returned_perm_nodes_frame(n, a, rv, perms, erv, k - 1);
        let prev = returned_perm_nodes(n, a, rv, perms, erv, k - 1);
        let r = returned_perm_nodes(n, a, rv, perms, erv, k);
        assert forall|q: int| 0 <= q < r.len() implies same_frame(n.problem, (#[trigger] r[q]).problem) by {
            if q < prev.len() {
                assert(r[q] == prev[q]);
            }
        }
    }
}

/// Applying an action with each permutation of values changes nothing of
/// the problem but its state either.
pub proof fn law_permuted_action_keeps_frame(n: NodeModel, a: ActionModel, rv: RelVarsModel)
    ensures
        forall|k: int| 0 <= k < total_perform_result(n, a, rv).len() ==> same_frame(n.problem, (#[trigger] total_perform_result(n, a, rv)[k]).problem),
{
    let p = action_perms(n, a, rv);
    lemma_returned_perm_nodes_frame(n, a, rv, p.0, p.1, p.0.len() as int);
}

/// Actions change nothing of the problem but its state, in the partially
/// ordered search too.
pub proof fn law_partial_action_keeps_frame(n: PartialNodeModel, a: ActionModel, rv: RelVarsModel, called: CalledModel, passing: Seq<PreconditionModel>, sqi: int)
    ensures
        forall|k: int| 0 <= k < partial_action_result(n, a, rv, called, passing, sqi).0.len()
            ==> same_frame(n.problem, (#[trigger] partial_action_result(n, a, rv, called, passing, sqi).0[k]).problem),
{
}

proof fn lemma_task_method_nodes_problem(n: PartialNodeModel, ms: Seq<MethodModel>, rv: RelVarsModel, called: CalledModel, passing: Seq<PreconditionModel>, sqi: int, k: int)
    ensures
        forall|q: int| 0 <= q < task_method_nodes(n, ms, rv, called, passing, sqi, k).len()
            ==> (#[trigger] task_method_nodes(n, ms, rv, called, passing, sqi, k)[q]).problem == n.problem,
    decreases k,
{
    if k > 0 {
        lemma_task_method_nodes_problem(n, ms, rv, called, passing, sqi, k - 1);
        let prev = task_method_nodes(n, ms, rv, called, passing, sqi, k - 1);
        let r = task_method_nodes(n, ms, rv, called, passing, sqi, k);
        assert forall|q: int| 0 <= q < r.len() implies (#[trigger] r[q]).problem == n.problem by {
            if q < prev.len() {
                assert(r[q] == prev[q]);
            }
        }
    }
}

/// Expanding a task into its methods never changes the problem.
pub proof fn law_task_keeps_problem(n: PartialNodeModel, d: DomainModel, t: crate::datastructures::domain::TaskModel, rv: RelVarsModel, called: CalledModel, passing: Seq<PreconditionModel>, sqi: int)
    ensures
        forall|k: int| 0 <= k < partial_task_result(n, d, t, rv, called, passing, sqi).len()
            ==> (#[trigger] partial_task_result(n, d, t, rv, called, passing, sqi)[k]).problem == n.problem,
{
    let ms = crate::toolbox::methods::prioritized(d.methods, n.problem.goal is Some, n.goal_functions, t.name);
    lemma_task_method_nodes_problem(n, ms, rv, called, passing, sqi, ms.len() as int);
}

proof fn lemma_total_htn_nodes_problem(n: NodeModel, ms: Seq<MethodModel>, actions: Seq<ActionModel>, htn: (Str, Str, Seq<Str>), rv: RelVarsModel, k: int)
    ensures
        forall|q: int| 0 <= q < total_htn_method_nodes(n, ms, rv, k).0.len()
            ==> (#[trigger] total_htn_method_nodes(n, ms, rv, k).0[q]).problem == n.problem,
        forall|q: int| 0 <= q < total_htn_action_nodes(n, actions, htn, k).0.len()
            ==> (#[trigger] total_htn_action_nodes(n, actions, htn, k).0[q]).problem == n.problem,
    decreases k,
{
    if k > 0 {
        lemma_total_htn_nodes_problem(n, ms, actions, htn, rv, k - 1);
        let pm = total_htn_method_nodes(n, ms, rv, k - 1).0;
        let rm = total_htn_method_nodes(n, ms, rv, k).0;
        assert forall|q: int| 0 <= q < rm.len() implies (#[trigger] rm[q]).problem == n.problem by {
            if q < pm.len() { assert(rm[q] == pm[q]); }
        }
        let pa = total_htn_action_nodes(n, actions, htn, k - 1).0;
        let ra = total_htn_action_nodes(n, actions, htn, k).0;
        assert forall|q: int| 0 <= q < ra.len() implies (#[trigger] ra[q]).problem == n.problem by {
            if q < pa.len() { assert(ra[q] == pa[q]); }
        }
    }
}

/// Expanding a task of the initial network never changes the problem.
pub proof fn law_htn_task_keeps_problem(n: NodeModel, d: DomainModel, htn: (Str, Str, Seq<Str>), rv: RelVarsModel)
    ensures
        forall|k: int| 0 <= k < total_htn_result(n, d, htn, rv).len() ==> (#[trigger] total_htn_result(n, d, htn, rv)[k]).problem == n.problem,
{
    match crate::toolbox::methods::table_lookup(d.methods, htn.0) {
        Some(ms) => lemma_total_htn_nodes_problem(n, crate::toolbox::methods::sorted_by_subtasks(ms), d.actions, htn, rv, ms.len() as int),
        None => lemma_total_htn_nodes_problem(n, Seq::empty(), d.actions, htn, rv, d.actions.len() as int),
    }
}

proof fn lemma_partial_htn_nodes_problem(n: PartialNodeModel, ms: Seq<MethodModel>, actions: Seq<ActionModel>, htn: (Str, Str, Seq<Str>), rv: RelVarsModel, called: CalledModel, sqi: int, passing: Seq<PreconditionModel>, k: int)
    ensures
        forall|q: int| 0 <= q < htn_method_nodes(n, ms, rv, called, sqi, passing, k).0.len()
            ==> (#[trigger] htn_method_nodes(n, ms, rv, called, sqi, passing, k).0[q]).problem == n.problem,
        forall|q: int| 0 <= q < htn_action_nodes(n, actions, htn, called, sqi, passing, k).0.len()
            ==> (#[trigger] htn_action_nodes(n, actions, htn, called, sqi, passing, k).0[q]).problem == n.problem,
    decreases k,
{
    if k > 0 {
        lemma_partial_htn_nodes_problem(n, ms, actions, htn, rv, called, sqi, passing, k - 1);
        let pm = htn_method_nodes(n, ms, rv, called, sqi, passing, k - 1).0;
        let rm = htn_method_nodes(n, ms, rv, called, sqi, passing, k).0;
        assert forall|q: int| 0 <= q < rm.len() implies (#[trigger] rm[q]).problem == n.problem by {
            if q < pm.len() { assert(rm[q] == pm[q]); }
        }
        let pa = htn_action_nodes(n, actions, htn, called, sqi, passing, k - 1).0;
        let ra = htn_action_nodes(n, actions, htn, called, sqi, passing, k).0;
        assert forall|q: int| 0 <= q < ra.len() implies (#[trigger] ra[q]).problem == n.problem by {
            if q < pa.len() { assert(ra[q] == pa[q]); }
        }
    }
}

/// Expanding a task of the initial network never changes the problem, in
/// the partially ordered search too.
pub proof fn law_partial_htn_task_keeps_problem(n: PartialNodeModel, d: DomainModel, htn: (Str, Str, Seq<Str>), rv: RelVarsModel, called: CalledModel, sqi: int, passing: Seq<PreconditionModel>)
    ensures
        forall|k: int| 0 <= k < partial_htn_result(n, d, htn, rv, called, sqi, passing).0.len()
            ==> (#[trigger] partial_htn_result(n, d, htn, rv, called, sqi, passing).0[k]).problem == n.problem,
{
    match crate::toolbox::methods::table_lookup(d.methods, htn.0) {
        Some(ms) => lemma_partial_htn_nodes_problem(n, crate::toolbox::methods::sorted_by_subtasks(ms), d.actions, htn, rv, called, sqi, passing, ms.len() as int),
        None => lemma_partial_htn_nodes_problem(n, Seq::empty(), d.actions, htn, rv, called, sqi, passing, d.actions.len() as int),
    }
}

/// The search reports a plan only for a node with nothing left to do in
/// which the goal holds.
pub proof fn law_solved_node_reaches_goal(q: Seq<PartialNodeModel>, d: DomainModel, tried: usize, limit: usize)
    ensures
        ({
            let s = partial_step(q, d, tried, limit);
            s.2 == StepKind::Solved ==> {
                &&& s.3 is Some
                &&& s.3.unwrap().subtask_queue.len() == 0
                &&& goal_reached(s.3.unwrap().problem.state, s.3.unwrap().problem.goal)
            }
        }),
        ({
            let s = partial_step(q, d, tried, limit);
            s.2 != StepKind::Solved ==> s.3 is None
        }),
{
}

proof fn lemma_hash_keeps_problem(n: PartialNodeModel, index: usize, limit: usize)
    ensures
        partial_hash_result(n, index, limit).0.problem == n.problem,
        partial_hash_result(n, index, limit).0.subtask_queue == n.subtask_queue,
{
}

/// Every step of the search keeps what planning never changes: when all the
/// nodes of the queue share a problem's name, domain, objects, initial
/// network and goal, so do all the nodes after the step, and the solving node.
pub proof fn law_step_keeps_frame(q: Seq<PartialNodeModel>, d: DomainModel, tried: usize, limit: usize, p: ProblemModel)
    requires
        forall|k: int| 0 <= k < q.len() ==> same_frame(p, (#[trigger] q[k]).problem),
    ensures
        ({
            let s = partial_step(q, d, tried, limit);
            &&& forall|k: int| 0 <= k < s.0.len() ==> same_frame(p, (#[trigger] s.0[k]).problem)
            &&& s.3 is Some ==> same_frame(p, s.3.unwrap().problem)
        }),
{
    let s = partial_step(q, d, tried, limit);
    if q.len() > 0 {
        let q1 = q.drop_last();
        let n0 = q.last();
        assert(same_frame(p, n0.problem));
        assert forall|k: int| 0 <= k < q1.len() implies same_frame(p, (#[trigger] q1[k]).problem) by {
            assert(q1[k] == q[k]);
        }
        lemma_hash_keeps_problem(n0, tried, limit);
        let n = partial_hash_result(n0, tried, limit).0;
        let size = n.subtask_queue.len();
        let t1 = if tried > size - 1 { (tried - 1) as usize } else { tried };
        if partial_hashable(n0.subtask_queue) && size > 0 && !partial_hash_result(n0, tried, limit).1 && t1 < size {
            let e = n.subtask_queue[t1 as int];
            match e.0 {
                crate::datastructures::node::SubtaskTypesModel::HtnTask(h) => {
                    law_partial_htn_task_keeps_problem(n, d, h, e.1, e.2, t1 as int, e.3);
                },
                crate::datastructures::node::SubtaskTypesModel::Task(tk) => {
                    law_task_keeps_problem(n, d, tk, e.1, e.2, e.3, t1 as int);
                },
                crate::datastructures::node::SubtaskTypesModel::Method(m) => {
                    law_partial_method_keeps_problem(n, m, e.1, e.2, t1 as int, e.3);
                },
                crate::datastructures::node::SubtaskTypesModel::Action(a) => {
                    law_partial_action_keeps_frame(n, a, e.1, e.2, e.3, t1 as int);
                },
            }
            match step_dispatch(n, d, t1 as int) {
                Some(r) => {
                    assert forall|k: int| 0 <= k < r.0.len() implies same_frame(p, (#[trigger] r.0[k]).problem) by {
                        assert(same_frame(n.problem, r.0[k].problem));
                    }
                    assert forall|k: int| 0 <= k < s.0.len() implies same_frame(p, (#[trigger] s.0[k]).problem) by {
                        if k < q1.len() {
                            assert(s.0[k] == q1[k]);
                        } else if k < q1.len() + r.0.len() {
                            assert(s.0[k] == r.0[k - q1.len()]);
                        } else {
                            assert(s.0[k] == n);
                        }
                    }
                },
                None => {},
            }
        }
    }
}

proof fn lemma_dropped_in_contains(l1: Seq<Str>, l2: Seq<Str>, v: Str)
    ensures
        dropped_in(l1, l2).contains(v) <==> l1.contains(v) && !l2.contains(v),
    decreases l1.len(),
{
    if l1.len() > 0 {
        lemma_dropped_in_contains(l1.drop_last(), l2, v);
        let prev = dropped_in(l1.drop_last(), l2);
        let r = dropped_in(l1, l2);
        if r.contains(v) {
            let k = choose|k: int| 0 <= k < r.len() && r[k] == v;
            if k < prev.len() {
                assert(prev[k] == v);
                let j = choose|j: int| 0 <= j < l1.drop_last().len() && l1.drop_last()[j] == v;
                assert(l1[j] == v);
            } else {
                assert(l1[l1.len() - 1] == v);
            }
        }
        if l1.contains(v) && !l2.contains(v) {
            let j = choose|j: int| 0 <= j < l1.len() && l1[j] == v;
            if j < l1.len() - 1 {
                assert(l1.drop_last()[j] == v);
                let k = choose|k: int| 0 <= k < prev.len() && prev[k] == v;
                assert(r[k] == v);
            } else {
                assert(r[prev.len() as int] == v);
            }
        }
    }
}

proof fn lemma_kept_in_contains(l1: Seq<Str>, l2: Seq<Str>, v: Str)
    ensures
        kept_in(l1, l2).contains(v) <==> l1.contains(v) && l2.contains(v),
    decreases l1.len(),
{
    if l1.len() > 0 {
        lemma_kept_in_contains(l1.drop_last(), l2, v);
        let prev = kept_in(l1.drop_last(), l2);
        let r = kept_in(l1, l2);
        if r.contains(v) {
            let k = choose|k: int| 0 <= k < r.len() && r[k] == v;
            if k < prev.len() {
                assert(prev[k] == v);
                let j = choose|j: int| 0 <= j < l1.drop_last().len() && l1.drop_last()[j] == v;
                assert(l1[j] == v);
            } else {
                assert(l1[l1.len() - 1] == v);
            }
        }
        if l1.contains(v) && l2.contains(v) {
            let j = choose|j: int| 0 <= j < l1.len() && l1[j] == v;
            if j < l1.len() - 1 {
                assert(l1.drop_last()[j] == v);
                let k = choose|k: int| 0 <= k < prev.len() && prev[k] == v;
                assert(r[k] == v);
            } else {
                assert(r[prev.len() as int] == v);
            }
        }
    }
}

proof fn lemma_first_occurrence(l: Seq<Str>, v: Str, k: int)
    requires
        0 <= k < l.len(),
        l[k] == v,
    ensures
        0 <= first_occurrence(l, v) < l.len(),
        l[first_occurrence(l, v)] == v,
    decreases k,
{
    if exists|j: int| 0 <= j < k && l[j] == v {
        let j = choose|j: int| 0 <= j < k && l[j] == v;
        lemma_first_occurrence(l, v, j);
    } else {
        assert(0 <= k < l.len() && l[k] == v && forall|j: int| 0 <= j < k ==> l[j] != v);
    }
}

/// Removing a value from a list without duplicates leaves no copy of it,
/// and keeps only values the list had.
proof fn lemma_remove_value(l: Seq<Str>, v: Str)
    requires
        l.no_duplicates(),
        l.contains(v),
    ensures
        !l.remove(first_occurrence(l, v)).contains(v),
        forall|x: Str| l.remove(first_occurrence(l, v)).contains(x) ==> l.contains(x),
{
    let k0 = choose|k: int| 0 <= k < l.len() && l[k] == v;
    lemma_first_occurrence(l, v, k0);
    let f = first_occurrence(l, v);
    let r = l.remove(f);
    assert forall|x: Str| r.contains(x) implies l.contains(x) by {
        let j = choose|j: int| 0 <= j < r.len() && r[j] == x;
        if j < f { assert(l[j] == x); } else { assert(l[j + 1] == x); }
    }
    if r.contains(v) {
        let j = choose|j: int| 0 <= j < r.len() && r[j] == v;
        if j < f { assert(l[j] == v); } else { assert(l[j + 1] == v); }
    }
}

/// Two lists of values share no value.
pub open spec fn disjoint(a: Seq<Str>, b: Seq<Str>) -> bool {
    forall|x: Str| !(a.contains(x) && b.contains(x))
}

proof fn lemma_unequal_branches(rv: RelVarsModel, i1: int, i2: int, cv: Seq<Str>, all: Seq<Str>)
    requires
        0 <= i1 < rv.len(),
        0 <= i2 < rv.len(),
        i1 != i2,
        rv[i2].2.no_duplicates(),
        all == kept_in(rv[i1].2, rv[i2].2),
        forall|k: int| 0 <= k < cv.len() ==> all.contains(#[trigger] cv[k]),
    ensures
        forall|k: int| 0 <= k < unequal_branches(rv, i1, i2, cv, all).len() ==> {
            let r = #[trigger] unequal_branches(rv, i1, i2, cv, all)[k];
            r.len() == rv.len() && disjoint(r[i1].2, r[i2].2)
        },
    decreases cv.len(),
{
    if cv.len() > 0 {
        lemma_unequal_branches(rv, i1, i2, cv.drop_last(), all);
        let prev = unequal_branches(rv, i1, i2, cv.drop_last(), all);
        let res = unequal_branches(rv, i1, i2, cv, all);
        let val = cv.last();
        let l1 = rv[i1].2;
        let l2 = rv[i2].2;
        assert(all.contains(cv[cv.len() - 1]));
        lemma_kept_in_contains(l1, l2, val);
        lemma_remove_value(l2, val);
        let a = dropped_in(l1, all).push(val);
        let b = l2.remove(first_occurrence(l2, val));
        let nr = with_values(rv, i1, a, i2, b);
        assert(nr[i1].2 == a && nr[i2].2 == b);
        assert forall|x: Str| !(a.contains(x) && b.contains(x)) by {
            if a.contains(x) && b.contains(x) {
                if x != val {
                    let j = choose|j: int| 0 <= j < a.len() && a[j] == x;
                    assert(dropped_in(l1, all)[j] == x);
                    lemma_dropped_in_contains(l1, all, x);
                    lemma_kept_in_contains(l1, l2, x);
                }
            }
        }
        assert forall|k: int| 0 <= k < res.len() implies {
            let r = #[trigger] res[k];
            r.len() == rv.len() && disjoint(r[i1].2, r[i2].2)
        } by {
            if k < prev.len() { assert(res[k] == prev[k]); } else { assert(res[k] == nr); }
        }
    }
}

/// An inequality constraint separates its variables: when it names two
/// different relevant variables whose value lists have no duplicates, every
/// list of relevant variables it gives has the same length, and the two
/// variables share no value in it.
pub proof fn law_inequality_separates(rv: RelVarsModel, c: (bool, Str, Str))
    requires
        0 <= first_index(rv, c.1) < rv.len(),
        0 <= second_index(rv, c.1, c.2) < rv.len(),
        first_index(rv, c.1) != second_index(rv, c.1, c.2),
        rv[first_index(rv, c.1)].2.no_duplicates(),
        rv[second_index(rv, c.1, c.2)].2.no_duplicates(),
    ensures
        forall|k: int| 0 <= k < constraint_unequal_result(rv, c).len() ==> {
            let r = #[trigger] constraint_unequal_result(rv, c)[k];
            r.len() == rv.len() && disjoint(r[first_index(rv, c.1)].2, r[second_index(rv, c.1, c.2)].2)
        },
{
    let i1 = first_index(rv, c.1);
    let i2 = second_index(rv, c.1, c.2);
    let l1 = rv[i1].2;
    let l2 = rv[i2].2;
    let conflict = kept_in(l1, l2);
    let res = constraint_unequal_result(rv, c);
    if l1.len() == 1 && l2.len() == 1 {
        if l2[0] != l1[0] {
            assert forall|x: Str| !(l1.contains(x) && l2.contains(x)) by {
                if l1.contains(x) && l2.contains(x) {
                    let j = choose|j: int| 0 <= j < l1.len() && l1[j] == x;
                    let q = choose|q: int| 0 <= q < l2.len() && l2[q] == x;
                }
            }
        }
    } else if conflict.len() == 0 {
        assert forall|x: Str| !(l1.contains(x) && l2.contains(x)) by {
            lemma_kept_in_contains(l1, l2, x);
        }
    } else if l1.len() == 1 {
        lemma_kept_in_from_first(l1, l2, 0);
        lemma_kept_in_contained(l1, l2, 0);
        lemma_remove_value(l2, conflict[0]);
        let b = l2.remove(first_occurrence(l2, conflict[0]));
        assert(l1[0] == conflict[0]);
        assert forall|x: Str| !(l1.contains(x) && b.contains(x)) by {
            if l1.contains(x) && b.contains(x) {
                let j = choose|j: int| 0 <= j < l1.len() && l1[j] == x;
                assert(x == conflict[0]);
            }
        }
        assert(res[0][i1].2 == l1 && res[0][i2].2 == b);
    } else if l2.len() == 1 {
        lemma_kept_in_from_first(l1, l2, 0);
        lemma_kept_in_contained(l1, l2, 0);
        lemma_remove_value(l1, conflict[0]);
        let a = l1.remove(first_occurrence(l1, conflict[0]));
        assert(l2[0] == conflict[0]);
        assert forall|x: Str| !(a.contains(x) && l2.contains(x)) by {
            if a.contains(x) && l2.contains(x) {
                let j = choose|j: int| 0 <= j < l2.len() && l2[j] == x;
                assert(x == conflict[0]);
            }
        }
        assert(res[0][i1].2 == a && res[0][i2].2 == l2);
    } else {
        assert forall|k: int| 0 <= k < conflict.len() implies conflict.contains(#[trigger] conflict[k]) by {}
        lemma_unequal_branches(rv, i1, i2, conflict, conflict);
    }
}

/// The node and the answer after `k + 1` calls of `partial_hash_state` with
/// the same index and limit.
pub open spec fn repeated_hash(n: PartialNodeModel, index: usize, limit: usize, k: nat) -> (PartialNodeModel, bool)
    decreases k,
{
    if k == 0 {
        partial_hash_result(n, index, limit)
    } else {
        partial_hash_result(repeated_hash(n, index, limit, (k - 1) as nat).0, index, limit)
    }
}

/// The hash under which `partial_hash_state` records a partial node.
pub open spec fn partial_node_hash(n: PartialNodeModel, index: usize) -> u64 {
    partial_key_hash(n.problem.state, partial_entries(n.subtask_queue, n.subtask_queue.len() as int).unwrap(), index)
}

proof fn lemma_repeated_hash(n: PartialNodeModel, index: usize, limit: usize, k: nat)
    requires
        !partial_scan_stops(n.subtask_queue, n.subtask_queue.len() as int),
        !n.hash_table.contains(partial_node_hash(n, index)),
        limit < usize::MAX,
    ensures
        ({
            let r = repeated_hash(n, index, limit, k);
            let h = partial_node_hash(n, index);
            &&& r.0.problem == n.problem
            &&& r.0.subtask_queue == n.subtask_queue
            &&& r.0.hash_table == n.hash_table.insert(h)
            &&& r.0.hash_counter.contains_key(h)
            &&& r.0.hash_counter.dom() == n.hash_counter.dom().insert(h)
            &&& r.0.hash_counter[h] as int == (if limit == 0 { 1int } else if k <= limit { k as int + 1 } else { limit as int + 1 })
            &&& r.1 == (k > limit)
        }),
    decreases k,
{
    if k > 0 {
        lemma_repeated_hash(n, index, limit, (k - 1) as nat);
    }
}

/// A state that recurs is tried a limited number of times: calling
/// `partial_hash_state` again and again on a node whose queue holds only
/// methods and actions and whose state was not recorded answers "not a
/// duplicate" for the first `limit + 1` calls and "duplicate" for every later
/// one; the table then holds the node's hash in addition, the counter keeps
/// one key per hash of the table, and the problem and the queue stay as they were.
pub proof fn law_partial_hash_repeats(n: PartialNodeModel, index: usize, limit: usize, k: nat)
    requires
        !partial_scan_stops(n.subtask_queue, n.subtask_queue.len() as int),
        !n.hash_table.contains(partial_node_hash(n, index)),
        limit < usize::MAX,
    ensures
        repeated_hash(n, index, limit, k).1 == (k > limit),
        repeated_hash(n, index, limit, k).0.hash_table == n.hash_table.insert(partial_node_hash(n, index)),
        n.hash_counter.dom() == n.hash_table ==> repeated_hash(n, index, limit, k).0.hash_counter.dom() == repeated_hash(n, index, limit, k).0.hash_table,
        repeated_hash(n, index, limit, k).0.problem == n.problem,
        repeated_hash(n, index, limit, k).0.subtask_queue == n.subtask_queue,
{
    lemma_repeated_hash(n, index, limit, k);
}


/// Trimming by effects keeps a domain's name, tasks, types, constants and
/// predicates, and every action it keeps is an action of the domain.
pub proof fn law_effect_trim_keeps_shape(d: DomainModel, goal: StateModel)
    ensures
        effect_trimmed(d, goal).name == d.name,
        effect_trimmed(d, goal).tasks == d.tasks,
        effect_trimmed(d, goal).types == d.types,
        effect_trimmed(d, goal).constants == d.constants,
        effect_trimmed(d, goal).predicates == d.predicates,
        forall|x: ActionModel| #[trigger] effect_trimmed(d, goal).actions.contains(x) ==> d.actions.contains(x),
{
    lemma_actions_trim_shape(d, goal, d.actions);
}

proof fn lemma_action_index_nonneg(actions: Seq<ActionModel>, a: Str)
    ensures
        0 <= action_index(actions, a) <= actions.len(),
    decreases actions.len(),
{
    if actions.len() > 0 {
        lemma_action_index_nonneg(actions.drop_last(), a);
    }
}

proof fn lemma_effects_trim_shape(nd: DomainModel, d: DomainModel, goal: StateModel, a: Str, es: Seq<EffectModel>)
    ensures
        effects_trim(nd, d, goal, a, es).0.name == nd.name,
        effects_trim(nd, d, goal, a, es).0.tasks == nd.tasks,
        effects_trim(nd, d, goal, a, es).0.types == nd.types,
        effects_trim(nd, d, goal, a, es).0.constants == nd.constants,
        effects_trim(nd, d, goal, a, es).0.predicates == nd.predicates,
        forall|x: ActionModel| #[trigger] effects_trim(nd, d, goal, a, es).0.actions.contains(x) ==> nd.actions.contains(x),
    decreases es.len(),
{
    if es.len() > 0 {
        lemma_effects_trim_shape(nd, d, goal, a, es.drop_last());
        let (n2, stopped) = effects_trim(nd, d, goal, a, es.drop_last());
        let i = action_index(n2.actions, a);
        lemma_action_index_nonneg(n2.actions, a);
        if i < n2.actions.len() {
            assert forall|x: ActionModel| #[trigger] n2.actions.remove(i).contains(x) implies n2.actions.contains(x) by {
                let j = choose|j: int| 0 <= j < n2.actions.remove(i).len() && n2.actions.remove(i)[j] == x;
                if j < i {
                    assert(n2.actions[j] == x);
                } else {
                    assert(n2.actions[j + 1] == x);
                }
            }
        }
    }
}

proof fn lemma_actions_trim_shape(d: DomainModel, goal: StateModel, acts: Seq<ActionModel>)
    ensures
        actions_trim(d, goal, acts).name == d.name,
        actions_trim(d, goal, acts).tasks == d.tasks,
        actions_trim(d, goal, acts).types == d.types,
        actions_trim(d, goal, acts).constants == d.constants,
        actions_trim(d, goal, acts).predicates == d.predicates,
        forall|x: ActionModel| #[trigger] actions_trim(d, goal, acts).actions.contains(x) ==> d.actions.contains(x),
    decreases acts.len(),
{
    if acts.len() > 0 {
        lemma_actions_trim_shape(d, goal, acts.drop_last());
        let nd = actions_trim(d, goal, acts.drop_last());
        match acts.last().effect {
            Some(es) => lemma_effects_trim_shape(nd, d, goal, acts.last().name, es),
            None => {},
        }
    }
}


/// Whether some method of the list is named `x` and calls one of `names`.
pub open spec fn some_method_calls(ms: Seq<MethodModel>, names: Seq<Str>, x: Str) -> bool {
    exists|k: int| 0 <= k < ms.len() && (#[trigger] ms[k]).name == x && method_calls_any(ms[k], names)
}

/// A name is found by the goal-oriented finder exactly when some method of
/// the table has that name and calls an action among the goal's adders.
pub proof fn law_goal_finder_membership(table: Seq<(Str, Seq<MethodModel>)>, names: Seq<Str>, x: Str)
    ensures
        table_methods_calling(table, names).contains(x) <==> exists|i: int|
            0 <= i < table.len() && some_method_calls(#[trigger] table[i].1, names, x),
    decreases table.len(),
{
    if table.len() > 0 {
        let rest = table.drop_last();
        law_goal_finder_membership(rest, names, x);
        lemma_methods_calling_contains(table_methods_calling(rest, names), table.last().1, names, x);
        if exists|i: int| 0 <= i < table.len() && some_method_calls(#[trigger] table[i].1, names, x) {
            let i = choose|i: int| 0 <= i < table.len() && some_method_calls(#[trigger] table[i].1, names, x);
            if i < table.len() - 1 {
                assert(rest[i] == table[i]);
            }
        }
        if exists|i: int| 0 <= i < rest.len() && some_method_calls(#[trigger] rest[i].1, names, x) {
            let i = choose|i: int| 0 <= i < rest.len() && some_method_calls(#[trigger] rest[i].1, names, x);
            assert(rest[i] == table[i]);
        }
    }
}

proof fn lemma_methods_calling_contains(found: Seq<Str>, ms: Seq<MethodModel>, names: Seq<Str>, x: Str)
    ensures
        methods_calling(found, ms, names).contains(x) <==> (found.contains(x) || some_method_calls(ms, names, x)),
    decreases ms.len(),
{
    if ms.len() > 0 {
        let rest = ms.drop_last();
        lemma_methods_calling_contains(found, rest, names, x);
        let f = methods_calling(found, rest, names);
        if some_method_calls(ms, names, x) {
            let k = choose|k: int| 0 <= k < ms.len() && (#[trigger] ms[k]).name == x && method_calls_any(ms[k], names);
            if k < ms.len() - 1 {
                assert(rest[k] == ms[k]);
            } else {
                assert(ms.last() == ms[k]);
            }
        }
        if some_method_calls(rest, names, x) {
            let k = choose|k: int| 0 <= k < rest.len() && (#[trigger] rest[k]).name == x && method_calls_any(rest[k], names);
            assert(rest[k] == ms[k]);
        }
        let res = methods_calling(found, ms, names);
        if method_calls_any(ms.last(), names) {
            assert(res == f.push(ms.last().name));
            if f.contains(x) {
                let j = choose|j: int| 0 <= j < f.len() && f[j] == x;
                assert(res[j] == x);
            }
            if res.contains(x) {
                let j = choose|j: int| 0 <= j < res.len() && res[j] == x;
                if j < f.len() {
                    assert(f[j] == x);
                } else {
                    assert(ms[ms.len() - 1] == ms.last());
                    assert(ms[ms.len() - 1].name == x && method_calls_any(ms[ms.len() - 1], names));
                }
            }
            if ms.last().name == x {
                assert(res[res.len() - 1] == x);
            }
        } else {
            assert(res == f);
        }
    } else {
        assert(!some_method_calls(ms, names, x));
    }
}


/// Whether `var` stands exactly once among `args`.
pub open spec fn stands_once(args: Seq<Str>, var: Str) -> bool {
    exists|qv: int| 0 <= qv < args.len() && args[qv] == var
        && forall|q: int| 0 <= q < args.len() && q != qv ==> #[trigger] args[q] != var
}

proof fn lemma_count_full(value: Str, fargs: Seq<Str>, iargs: Seq<Str>, var: Str, rv: RelVarsModel, n: int)
    requires
        0 <= n,
    ensures
        forall_count(value, fargs, iargs, var, rv, n) <= n,
        forall_count(value, fargs, iargs, var, rv, n) == n <==> forall|k: int| 0 <= k < n ==> #[trigger] position_hit(value, fargs[k], iargs[k], var, rv) == 1,
    decreases n,
{
    if n > 0 {
        lemma_count_full(value, fargs, iargs, var, rv, n - 1);
        if forall_count(value, fargs, iargs, var, rv, n) == n {
            assert forall|k: int| 0 <= k < n implies #[trigger] position_hit(value, fargs[k], iargs[k], var, rv) == 1 by {
                if k < n - 1 {
                    assert(forall_count(value, fargs, iargs, var, rv, n - 1) == n - 1);
                }
            }
        }
    }
}

/// On a `forall` whose literal is negated and holds its bound variable once,
/// with facts of exactly the literal's arity, trimming and checking agree:
/// `precon_trim_forall` reports the `forall` cleared exactly when
/// `check_precondition` finds it holds (no tuple of values matches a fact).
pub proof fn law_forall_check_agrees(rv: RelVarsModel, p: PreconditionModel, problem: ProblemModel)
    requires
        names_distinct(rv),
        p.0 == 4,
        forall_trimmable(p, rv, problem.state),
        p.3.unwrap().1.len() == 1,
        !p.3.unwrap().1[0].0,
        stands_once(p.3.unwrap().1[0].2, p.3.unwrap().0.0),
        forall|i: int| 0 <= i < problem.state.len() && (#[trigger] problem.state[i]).0 == p.3.unwrap().1[0].1
            ==> problem.state[i].1.len() == p.3.unwrap().1[0].2.len(),
        forall|j: int| 0 <= j < rv.len() ==> (#[trigger] rv[j]).2.len() <= usize::MAX,
        objects_declared(problem.objects, p.3.unwrap().0.1).len() <= usize::MAX,
    ensures
        forall_trim(rv, p, problem.objects, problem.state).2 == precondition_holds(p, rv, problem),
{
    let f = p.3.unwrap();
    let lit = f.1[0];
    let var = f.0.0;
    let n = lit.2.len() as int;
    let state = problem.state;
    let objs = objects_declared(problem.objects, f.0.1);
    let lists = forall_lists(lit.2, var, objs, rv);
    let sizes = sizes_of(lists);
    let ts = index_tuples(sizes);
    let hits = Seq::new(ts.len(), |i: int| tuple_found(state, lit.1, n, lists, ts[i]));
    let qv = choose|qv: int| 0 <= qv < lit.2.len() && lit.2[qv] == var
        && forall|q: int| 0 <= q < lit.2.len() && q != qv ==> #[trigger] lit.2[q] != var;
    assert(lists[qv] == objs);
    assert forall|q: int| 0 <= q < n && q != qv implies has_name(rv, #[trigger] lit.2[q])
        && lists[q] == rv[first_named(rv, lit.2[q])].2
        && sizes[q] == lists[q].len() by {
        assert(lit.2[q] != var);
        crate::toolbox::relvars::lemma_first_named_exists(rv, lit.2[q]);
    }
    assert(sizes[qv] == objs.len());
    if hits.contains(true) {
        let i = choose|i: int| 0 <= i < hits.len() && hits[i] == true;
        let t = ts[i];
        lemma_index_tuples_bounds(sizes);
        assert(in_bounds(t, sizes));
        let fi = choose|fi: int| 0 <= fi < state.len() && (#[trigger] state[fi]).0 == lit.1 && state[fi].1.len() >= t.len()
            && state[fi].1.take(t.len() as int) == tuple_values(lists, t);
        let fact = state[fi].1;
        assert(fact.take(n) =~= fact);
        let o = t[qv] as int;
        let value = objs[o];
        assert forall|k: int| 0 <= k < n implies #[trigger] position_hit(value, fact[k], lit.2[k], var, rv) == 1 by {
            assert(fact[k] == tuple_values(lists, t)[k]);
            if k != qv {
                assert(lit.2[k] != var);
                assert(rv[first_named(rv, lit.2[k])].2[t[k] as int] == fact[k]);
            }
        }
        lemma_count_full(value, fact, lit.2, var, rv, n);
        assert(forall_count(objs[o], state[fi].1, lit.2, var, rv, n) == state[fi].1.len());
        assert(forall_matched(state, objs, lit, var, rv));
    }
    if forall_matched(state, objs, lit, var, rv) {
        let (o, fi) = choose|o: int, fi: int| 0 <= o < objs.len() && 0 <= fi < state.len() && (#[trigger] state[fi]).0 == lit.1
            && forall_count(#[trigger] objs[o], state[fi].1, lit.2, var, rv, lit.2.len() as int) == state[fi].1.len();
        let fact = state[fi].1;
        let value = objs[o];
        lemma_count_full(value, fact, lit.2, var, rv, n);
        assert forall|q: int| 0 <= q < n && q != qv implies lists[q].contains(#[trigger] fact[q]) by {
            assert(position_hit(value, fact[q], lit.2[q], var, rv) == 1);
        }
        let t = Seq::new(n as nat, |q: int| if q == qv {
            o as usize
        } else {
            (choose|k: int| 0 <= k < lists[q].len() && lists[q][k] == fact[q]) as usize
        });
        assert forall|q: int| 0 <= q < n implies t[q] < sizes[q] && lists[q][t[q] as int] == fact[q] by {
            if q == qv {
                assert(position_hit(value, fact[qv], lit.2[qv], var, rv) == 1);
            } else {
                assert(lists[q].contains(fact[q]));
                let k = choose|k: int| 0 <= k < lists[q].len() && lists[q][k] == fact[q];
                assert(lists[q] == rv[first_named(rv, lit.2[q])].2);
            }
        }
        assert(in_bounds(t, sizes));
        lemma_index_tuples_complete(sizes, t);
        let i = choose|i: int| 0 <= i < ts.len() && ts[i] == t;
        assert(fact.take(n) =~= tuple_values(lists, t));
        assert(tuple_found(state, lit.1, n, lists, ts[i]));
        assert(hits[i]);
        assert(hits.contains(true));
    }
}


/// How often `x` occurs in `s`.
pub open spec fn occurrences(s: Seq<Str>, x: Str) -> nat
    decreases s.len(),
{
    if s.len() == 0 {
        0
    } else {
        occurrences(s.drop_last(), x) + if s.last() == x { 1nat } else { 0nat }
    }
}

/// How many methods of the list are named `x` and call one of `names`.
pub open spec fn callers_named(ms: Seq<MethodModel>, names: Seq<Str>, x: Str) -> nat
    decreases ms.len(),
{
    if ms.len() == 0 {
        0
    } else {
        callers_named(ms.drop_last(), names, x) + if ms.last().name == x && method_calls_any(ms.last(), names) { 1nat } else { 0nat }
    }
}

/// How many methods of the table are named `x` and call one of `names`.
pub open spec fn table_callers_named(table: Seq<(Str, Seq<MethodModel>)>, names: Seq<Str>, x: Str) -> nat
    decreases table.len(),
{
    if table.len() == 0 {
        0
    } else {
        table_callers_named(table.drop_last(), names, x) + callers_named(table.last().1, names, x)
    }
}

proof fn lemma_methods_calling_count(found: Seq<Str>, ms: Seq<MethodModel>, names: Seq<Str>, x: Str)
    ensures
        occurrences(methods_calling(found, ms, names), x) == occurrences(found, x) + callers_named(ms, names, x),
    decreases ms.len(),
{
    if ms.len() > 0 {
        lemma_methods_calling_count(found, ms.drop_last(), names, x);
        let f = methods_calling(found, ms.drop_last(), names);
        assert(f.push(ms.last().name).drop_last() =~= f);
    }
}

/// The goal-oriented finder names each method that calls one of the goal's
/// adders exactly once: a name occurs in its result as often as the table
/// has methods of that name calling such an action.
pub proof fn law_goal_finder_counts(table: Seq<(Str, Seq<MethodModel>)>, names: Seq<Str>, x: Str)
    ensures
        occurrences(table_methods_calling(table, names), x) == table_callers_named(table, names, x),
    decreases table.len(),
{
    if table.len() > 0 {
        law_goal_finder_counts(table.drop_last(), names, x);
        lemma_methods_calling_count(table_methods_calling(table.drop_last(), names), table.last().1, names, x);
    }
}


/// Whether `f` picks the items of `a` from `b` at increasing positions.
pub open spec fn picks<A>(f: Seq<int>, a: Seq<A>, b: Seq<A>) -> bool {
    &&& f.len() == a.len()
    &&& forall|k: int| 0 <= k < f.len() ==> 0 <= #[trigger] f[k] < b.len() && a[k] == b[f[k]]
    &&& forall|k: int, l: int| 0 <= k < l < f.len() ==> #[trigger] f[k] < #[trigger] f[l]
}

/// Whether `a` is `b` with some items left out, the others in their order.
pub open spec fn subseq_of<A>(a: Seq<A>, b: Seq<A>) -> bool {
    exists|f: Seq<int>| picks(f, a, b)
}

/// Each entry of the table has the key of the entry at its position in
/// `orig`, and methods that keep their order in that entry's list.
pub open spec fn table_within(t: Seq<(Str, Seq<MethodModel>)>, orig: Seq<(Str, Seq<MethodModel>)>) -> bool {
    &&& t.len() == orig.len()
    &&& forall|k: int| 0 <= k < t.len() ==> (#[trigger] t[k]).0 == orig[k].0 && subseq_of(t[k].1, orig[k].1)
}

proof fn lemma_subseq_refl<A>(b: Seq<A>)
    ensures
        subseq_of(b, b),
{
    let f = Seq::new(b.len(), |k: int| k);
    assert(picks(f, b, b));
}

proof fn lemma_subseq_trans<A>(a: Seq<A>, b: Seq<A>, c: Seq<A>)
    requires
        subseq_of(a, b),
        subseq_of(b, c),
    ensures
        subseq_of(a, c),
{
    let f = choose|f: Seq<int>| picks(f, a, b);
    let g = choose|g: Seq<int>| picks(g, b, c);
    let h = Seq::new(a.len(), |k: int| g[f[k]]);
    assert forall|k: int, l: int| 0 <= k < l < h.len() implies #[trigger] h[k] < #[trigger] h[l] by {
        assert(f[k] < f[l]);
    }
    assert(picks(h, a, c));
}

proof fn lemma_subseq_remove<A>(b: Seq<A>, i: int)
    requires
        0 <= i < b.len(),
    ensures
        subseq_of(b.remove(i), b),
{
    let a = b.remove(i);
    let f = Seq::new(a.len(), |k: int| if k < i { k } else { k + 1 });
    assert(picks(f, a, b));
}

proof fn lemma_not_named_subseq(ms: Seq<MethodModel>, name: Str)
    ensures
        subseq_of(methods_not_named(ms, name), ms),
    decreases ms.len(),
{
    if ms.len() == 0 {
        assert(picks(Seq::<int>::empty(), methods_not_named(ms, name), ms));
    } else {
        lemma_not_named_subseq(ms.drop_last(), name);
        let rest = methods_not_named(ms.drop_last(), name);
        let f = choose|f: Seq<int>| picks(f, rest, ms.drop_last());
        assert(picks(f, rest, ms));
        if ms.last().name != name {
            let g = f.push(ms.len() - 1);
            assert(picks(g, rest.push(ms.last()), ms));
        }
    }
}

proof fn lemma_key_index_found(t: Seq<(Str, Seq<MethodModel>)>, k: Str)
    ensures
        0 <= key_index(t, k) <= t.len(),
        key_index(t, k) < t.len() ==> t[key_index(t, k)].0 == k,
        has_key(t, k) ==> key_index(t, k) < t.len(),
    decreases t.len(),
{
    if t.len() > 0 {
        lemma_key_index_found(t.drop_last(), k);
        if has_key(t, k) && key_index(t.drop_last(), k) >= t.len() - 1 {
            let i = choose|i: int| 0 <= i < t.len() && (#[trigger] t[i]).0 == k;
            if i < t.len() - 1 {
                assert(t.drop_last()[i].0 == k);
            }
        }
    }
}

proof fn lemma_key_index_same_keys(t: Seq<(Str, Seq<MethodModel>)>, u: Seq<(Str, Seq<MethodModel>)>, k: Str)
    requires
        t.len() == u.len(),
        forall|i: int| 0 <= i < t.len() ==> (#[trigger] t[i]).0 == u[i].0,
    ensures
        key_index(t, k) == key_index(u, k),
    decreases t.len(),
{
    if t.len() > 0 {
        lemma_key_index_same_keys(t.drop_last(), u.drop_last(), k);
        assert(t.last().0 == u.last().0);
    }
}

proof fn lemma_apply_trims_within(t: Seq<(Str, Seq<MethodModel>)>, orig: Seq<(Str, Seq<MethodModel>)>, trims: Seq<MethodModel>)
    requires
        table_within(t, orig),
        trims_keyed(orig, trims),
    ensures
        table_within(apply_method_trims(t, orig, trims), orig),
    decreases trims.len(),
{
    if trims.len() > 0 {
        assert(trims_keyed(orig, trims.drop_last())) by {
            assert forall|k: int| 0 <= k < trims.drop_last().len() implies has_key(orig, (#[trigger] trims.drop_last()[k]).task.0) by {
                assert(trims.drop_last()[k] == trims[k]);
            }
        }
        lemma_apply_trims_within(t, orig, trims.drop_last());
        let t2 = apply_method_trims(t, orig, trims.drop_last());
        let tm = trims.last();
        let key = tm.task.0;
        assert(has_key(orig, key)) by {
            assert(trims[trims.len() - 1] == tm);
        }
        lemma_key_index_found(orig, key);
        lemma_key_index_same_keys(t2, orig, key);
        let j = key_index(orig, key);
        let new_list = methods_not_named(orig[j].1, tm.name);
        lemma_not_named_subseq(orig[j].1, tm.name);
        let r = t2.update(j, (key, new_list));
        assert forall|k: int| 0 <= k < r.len() implies (#[trigger] r[k]).0 == orig[k].0 && subseq_of(r[k].1, orig[k].1) by {
            if k != j {
                assert(r[k] == t2[k]);
            }
        }
    }
}

proof fn lemma_effects_trim_order(nd: DomainModel, d: DomainModel, goal: StateModel, a: Str, es: Seq<EffectModel>)
    requires
        table_keyed(d.methods),
        subseq_of(nd.actions, d.actions),
        table_within(nd.methods, d.methods),
    ensures
        subseq_of(effects_trim(nd, d, goal, a, es).0.actions, d.actions),
        table_within(effects_trim(nd, d, goal, a, es).0.methods, d.methods),
    decreases es.len(),
{
    if es.len() > 0 {
        lemma_effects_trim_order(nd, d, goal, a, es.drop_last());
        let (n2, stopped) = effects_trim(nd, d, goal, a, es.drop_last());
        if !stopped && !predicate_needed(d, goal, es.last().1) {
            if let Some(trims) = table_trims(d.methods, a) {
                if trims.len() > 0 {
                    let i = action_index(n2.actions, a);
                    lemma_action_index_nonneg(n2.actions, a);
                    if i < n2.actions.len() {
                        lemma_subseq_remove(n2.actions, i);
                        lemma_subseq_trans(n2.actions.remove(i), n2.actions, d.actions);
                    }
                    lemma_trims_keyed(d.methods, a);
                    lemma_apply_trims_within(n2.methods, d.methods, trims);
                }
            }
        }
    }
}

proof fn lemma_actions_trim_order(d: DomainModel, goal: StateModel, acts: Seq<ActionModel>)
    requires
        table_keyed(d.methods),
    ensures
        subseq_of(actions_trim(d, goal, acts).actions, d.actions),
        table_within(actions_trim(d, goal, acts).methods, d.methods),
    decreases acts.len(),
{
    if acts.len() == 0 {
        lemma_subseq_refl(d.actions);
        assert forall|k: int| 0 <= k < d.methods.len() implies subseq_of((#[trigger] d.methods[k]).1, d.methods[k].1) by {
            lemma_subseq_refl(d.methods[k].1);
        }
    } else {
        lemma_actions_trim_order(d, goal, acts.drop_last());
        let nd = actions_trim(d, goal, acts.drop_last());
        match acts.last().effect {
            Some(es) => lemma_effects_trim_order(nd, d, goal, acts.last().name, es),
            None => {},
        }
    }
}

/// Trimming by effects keeps the order of what it keeps: the actions kept
/// are the domain's actions with some left out, in their order; the method
/// table keeps its keys in their places, and each list keeps methods of the
/// domain's list for that key, in their order.
pub proof fn law_effect_trim_keeps_order(d: DomainModel, goal: StateModel)
    requires
        table_keyed(d.methods),
    ensures
        subseq_of(effect_trimmed(d, goal).actions, d.actions),
        table_within(effect_trimmed(d, goal).methods, d.methods),
{
    lemma_actions_trim_order(d, goal, d.actions);
}


/// Whether a constraint names two different relevant variables of `rv`.
pub open spec fn constraint_names_two(rv: RelVarsModel, c: (bool, Str, Str)) -> bool {
    &&& 0 <= first_index(rv, c.1) < rv.len()
    &&& 0 <= second_index(rv, c.1, c.2) < rv.len()
    &&& first_index(rv, c.1) != second_index(rv, c.1, c.2)
}

/// Whether a constraint is fulfilled by relevant variables: an equality
/// fixes both variables to the same one value; an inequality leaves them no
/// value in common.
pub open spec fn constraint_holds(c: (bool, Str, Str), r: RelVarsModel) -> bool {
    let a = r[first_index(r, c.1)].2;
    let b = r[second_index(r, c.1, c.2)].2;
    if c.0 { a.len() == 1 && a == b } else { disjoint(a, b) }
}

/// No value list of the relevant variables holds a value twice.
pub open spec fn lists_distinct(r: RelVarsModel) -> bool {
    forall|j: int| 0 <= j < r.len() ==> (#[trigger] r[j]).2.no_duplicates()
}

/// `r` has the names and types of `m`, each list holds only values of the
/// list of `m`, and a list of one value stays as it was.
pub open spec fn narrows(r: RelVarsModel, m: RelVarsModel) -> bool {
    &&& r.len() == m.len()
    &&& forall|j: int| 0 <= j < r.len() ==> (#[trigger] r[j]).0 == m[j].0 && r[j].1 == m[j].1
        && (m[j].2.len() == 1 ==> r[j].2 == m[j].2)
        && forall|x: Str| r[j].2.contains(x) ==> m[j].2.contains(x)
}

proof fn lemma_indexes_by_names(r: RelVarsModel, m: RelVarsModel, c: (bool, Str, Str))
    requires
        r.len() == m.len(),
        forall|j: int| 0 <= j < r.len() ==> (#[trigger] r[j]).0 == m[j].0,
    ensures
        first_index(r, c.1) == first_index(m, c.1),
        second_index(r, c.1, c.2) == second_index(m, c.1, c.2),
    decreases r.len(),
{
    if r.len() > 0 {
        assert(r.last().0 == m.last().0);
        lemma_indexes_by_names(r.drop_last(), m.drop_last(), c);
    }
}

proof fn lemma_holds_kept(c: (bool, Str, Str), r: RelVarsModel, m: RelVarsModel)
    requires
        narrows(r, m),
        constraint_names_two(m, c),
        constraint_holds(c, m),
    ensures
        constraint_holds(c, r),
        constraint_names_two(r, c),
{
    lemma_indexes_by_names(r, m, c);
    let i1 = first_index(m, c.1);
    let i2 = second_index(m, c.1, c.2);
    assert(r[i1].0 == m[i1].0 && r[i2].0 == m[i2].0);
    if !c.0 {
        assert forall|x: Str| !(r[i1].2.contains(x) && r[i2].2.contains(x)) by {}
    }
}

proof fn lemma_no_dup_remove(l: Seq<Str>, i: int)
    requires
        l.no_duplicates(),
        0 <= i < l.len(),
    ensures
        l.remove(i).no_duplicates(),
        forall|x: Str| l.remove(i).contains(x) ==> l.contains(x),
{
    let r = l.remove(i);
    assert forall|a: int, b: int| 0 <= a < b < r.len() implies r[a] != r[b] by {
        let a2 = if a < i { a } else { a + 1 };
        let b2 = if b < i { b } else { b + 1 };
        assert(r[a] == l[a2] && r[b] == l[b2]);
    }
    assert forall|x: Str| r.contains(x) implies l.contains(x) by {
        let j = choose|j: int| 0 <= j < r.len() && r[j] == x;
        if j < i { assert(l[j] == x); } else { assert(l[j + 1] == x); }
    }
}

proof fn lemma_dropped_in_distinct(l1: Seq<Str>, l2: Seq<Str>)
    requires
        l1.no_duplicates(),
    ensures
        dropped_in(l1, l2).no_duplicates(),
    decreases l1.len(),
{
    if l1.len() > 0 {
        lemma_dropped_in_distinct(l1.drop_last(), l2);
        let prev = dropped_in(l1.drop_last(), l2);
        if !l2.contains(l1.last()) {
            lemma_dropped_in_contains(l1.drop_last(), l2, l1.last());
            if l1.drop_last().contains(l1.last()) {
                let j = choose|j: int| 0 <= j < l1.drop_last().len() && l1.drop_last()[j] == l1.last();
                assert(l1[j] == l1[l1.len() - 1]);
            }
            crate::text::lemma_push_no_duplicates(prev, l1.last());
        }
    }
}

proof fn lemma_one_list_narrows(m: RelVarsModel, i: int, l: Seq<Str>)
    requires
        0 <= i < m.len(),
        m[i].2.len() != 1 || l == m[i].2,
        forall|x: Str| l.contains(x) ==> m[i].2.contains(x),
    ensures
        narrows(m.update(i, (m[i].0, m[i].1, l)), m),
{
    let r = m.update(i, (m[i].0, m[i].1, l));
    assert forall|j: int| 0 <= j < r.len() implies (#[trigger] r[j]).0 == m[j].0 && r[j].1 == m[j].1
        && (m[j].2.len() == 1 ==> r[j].2 == m[j].2)
        && forall|x: Str| r[j].2.contains(x) ==> m[j].2.contains(x) by {
        if j != i { assert(r[j] == m[j]); }
    }
}

proof fn lemma_narrows_refl(m: RelVarsModel)
    ensures
        narrows(m, m),
{
    assert forall|j: int| 0 <= j < m.len() implies (#[trigger] m[j]).0 == m[j].0 && m[j].1 == m[j].1
        && (m[j].2.len() == 1 ==> m[j].2 == m[j].2)
        && forall|x: Str| m[j].2.contains(x) ==> m[j].2.contains(x) by {}
}

proof fn lemma_narrows_trans(a: RelVarsModel, b: RelVarsModel, c: RelVarsModel)
    requires
        narrows(a, b),
        narrows(b, c),
    ensures
        narrows(a, c),
{
    assert forall|j: int| 0 <= j < a.len() implies (#[trigger] a[j]).0 == c[j].0 && a[j].1 == c[j].1
        && (c[j].2.len() == 1 ==> a[j].2 == c[j].2)
        && forall|x: Str| a[j].2.contains(x) ==> c[j].2.contains(x) by {
        assert(b[j].0 == c[j].0);
    }
}

/// Whether `r` is `m` with both variables fixed to `a`, a value of the second.
pub open spec fn fixes_both(r: RelVarsModel, m: RelVarsModel, i1: int, i2: int, a: Str) -> bool {
    r == with_values(m, i1, seq![a], i2, seq![a]) && m[i2].2.contains(a)
}

proof fn lemma_equal_for(m: RelVarsModel, i1: int, i2: int, a: Str, bs: Seq<Str>)
    requires
        0 <= i1 < m.len(),
        0 <= i2 < m.len(),
        i1 != i2,
        m[i1].2.contains(a),
        forall|k: int| 0 <= k < bs.len() ==> m[i2].2.contains(#[trigger] bs[k]),
    ensures
        forall|k: int| 0 <= k < equal_branches_for(m, i1, i2, a, bs).len() ==>
            fixes_both(#[trigger] equal_branches_for(m, i1, i2, a, bs)[k], m, i1, i2, a),
    decreases bs.len(),
{
    if bs.len() > 0 {
        assert forall|k: int| 0 <= k < bs.drop_last().len() implies m[i2].2.contains(#[trigger] bs.drop_last()[k]) by {
            assert(bs.drop_last()[k] == bs[k]);
        }
        lemma_equal_for(m, i1, i2, a, bs.drop_last());
        let prev = equal_branches_for(m, i1, i2, a, bs.drop_last());
        let res = equal_branches_for(m, i1, i2, a, bs);
        assert(m[i2].2.contains(bs[bs.len() - 1]));
        if a == bs.last() {
            assert(res == prev.push(with_values(m, i1, seq![a], i2, seq![bs.last()])));
            assert(seq![bs.last()] == seq![a]);
            assert forall|k: int| 0 <= k < res.len() implies
                fixes_both(#[trigger] res[k], m, i1, i2, a) by {
                if k < prev.len() { assert(res[k] == prev[k]); }
            }
        } else {
            assert(res == prev);
            assert forall|k: int| 0 <= k < res.len() implies
                fixes_both(#[trigger] res[k], m, i1, i2, a) by {
                assert(res[k] == prev[k]);
            }
        }
    }
}

proof fn lemma_equal_all(m: RelVarsModel, i1: int, i2: int, avals: Seq<Str>)
    requires
        0 <= i1 < m.len(),
        0 <= i2 < m.len(),
        i1 != i2,
        forall|k: int| 0 <= k < avals.len() ==> m[i1].2.contains(#[trigger] avals[k]),
    ensures
        forall|k: int| 0 <= k < equal_branches(m, i1, i2, avals).len() ==> exists|a: Str|
            fixes_both(#[trigger] equal_branches(m, i1, i2, avals)[k], m, i1, i2, a) && m[i1].2.contains(a),
    decreases avals.len(),
{
    if avals.len() > 0 {
        lemma_equal_all(m, i1, i2, avals.drop_last());
        let prev = equal_branches(m, i1, i2, avals.drop_last());
        let a = avals.last();
        assert(m[i1].2.contains(avals[avals.len() - 1]));
        assert forall|k: int| 0 <= k < m[i2].2.len() implies m[i2].2.contains(#[trigger] m[i2].2[k]) by {}
        lemma_equal_for(m, i1, i2, a, m[i2].2);
        let more = equal_branches_for(m, i1, i2, a, m[i2].2);
        let res = equal_branches(m, i1, i2, avals);
        assert forall|k: int| 0 <= k < res.len() implies exists|b: Str|
            fixes_both(#[trigger] res[k], m, i1, i2, b) && m[i1].2.contains(b) by {
            if k < prev.len() {
                assert(res[k] == prev[k]);
            } else {
                assert(res[k] == more[k - prev.len()]);
            }
        }
    }
}

proof fn lemma_pair_narrows(m: RelVarsModel, i1: int, a: Seq<Str>, i2: int, b: Seq<Str>)
    requires
        0 <= i1 < m.len(),
        0 <= i2 < m.len(),
        i1 != i2,
        m[i1].2.len() != 1 || a == m[i1].2,
        m[i2].2.len() != 1 || b == m[i2].2,
        forall|x: Str| a.contains(x) ==> m[i1].2.contains(x),
        forall|x: Str| b.contains(x) ==> m[i2].2.contains(x),
    ensures
        narrows(with_values(m, i1, a, i2, b), m),
        with_values(m, i1, a, i2, b)[i1].2 == a,
        with_values(m, i1, a, i2, b)[i2].2 == b,
{
    let r1 = m.update(i1, (m[i1].0, m[i1].1, a));
    lemma_one_list_narrows(m, i1, a);
    assert(r1[i2] == m[i2]);
    lemma_one_list_narrows(r1, i2, b);
    lemma_narrows_trans(with_values(m, i1, a, i2, b), r1, m);
}

proof fn lemma_single_of(l: Seq<Str>, a: Str)
    requires
        l.len() == 1,
        l.contains(a),
    ensures
        l == seq![a],
{
    assert(l =~= seq![a]);
}

proof fn lemma_distinct_update(m: RelVarsModel, i: int, l: Seq<Str>)
    requires
        lists_distinct(m),
        0 <= i < m.len(),
        l.no_duplicates(),
    ensures
        lists_distinct(m.update(i, (m[i].0, m[i].1, l))),
{
    let r = m.update(i, (m[i].0, m[i].1, l));
    assert forall|j: int| 0 <= j < r.len() implies (#[trigger] r[j]).2.no_duplicates() by {
        if j != i { assert(r[j] == m[j]); }
    }
}

/// Every list of relevant variables that one constraint gives narrows the
/// list it came from, keeps lists without duplicates, and fulfils the constraint.
proof fn lemma_constraint_result(m: RelVarsModel, c: (bool, Str, Str), k: int)
    requires
        constraint_names_two(m, c),
        lists_distinct(m),
        0 <= k < constraint_result(m, c).len(),
    ensures
        narrows(constraint_result(m, c)[k], m),
        lists_distinct(constraint_result(m, c)[k]),
        constraint_holds(c, constraint_result(m, c)[k]),
{
    let i1 = first_index(m, c.1);
    let i2 = second_index(m, c.1, c.2);
    let r = constraint_result(m, c)[k];
    if c.0 {
        assert forall|q: int| 0 <= q < m[i1].2.len() implies m[i1].2.contains(#[trigger] m[i1].2[q]) by {}
        lemma_equal_all(m, i1, i2, m[i1].2);
        let a = choose|a: Str| fixes_both(r, m, i1, i2, a) && m[i1].2.contains(a);
        if m[i1].2.len() == 1 { lemma_single_of(m[i1].2, a); }
        if m[i2].2.len() == 1 { lemma_single_of(m[i2].2, a); }
        lemma_pair_narrows(m, i1, seq![a], i2, seq![a]);
        lemma_distinct_update(m, i1, seq![a]);
        lemma_distinct_update(m.update(i1, (m[i1].0, m[i1].1, seq![a])), i2, seq![a]);
        lemma_indexes_by_names(r, m, c);
    } else {
        law_inequality_separates(m, c);
        let l1 = m[i1].2;
        let l2 = m[i2].2;
        let conflict = kept_in(l1, l2);
        if l1.len() == 1 && l2.len() == 1 {
            lemma_narrows_refl(m);
        } else if conflict.len() == 0 {
            lemma_narrows_refl(m);
        } else if l1.len() == 1 {
            lemma_kept_in_from_first(l1, l2, 0);
            lemma_kept_in_contained(l1, l2, 0);
            let f = first_occurrence(l2, conflict[0]);
            let j0 = choose|j: int| 0 <= j < l2.len() && l2[j] == conflict[0];
            lemma_first_occurrence(l2, conflict[0], j0);
            lemma_no_dup_remove(l2, f);
            lemma_one_list_narrows(m, i2, l2.remove(f));
            lemma_distinct_update(m, i2, l2.remove(f));
        } else if l2.len() == 1 {
            lemma_kept_in_from_first(l1, l2, 0);
            lemma_kept_in_contained(l1, l2, 0);
            let f = first_occurrence(l1, conflict[0]);
            let j0 = choose|j: int| 0 <= j < l1.len() && l1[j] == conflict[0];
            lemma_first_occurrence(l1, conflict[0], j0);
            lemma_no_dup_remove(l1, f);
            lemma_one_list_narrows(m, i1, l1.remove(f));
            lemma_distinct_update(m, i1, l1.remove(f));
        } else {
            assert forall|q: int| 0 <= q < conflict.len() implies conflict.contains(#[trigger] conflict[q]) by {}
            lemma_unequal_narrows(m, i1, i2, conflict, conflict);
        }
        lemma_indexes_by_names(r, m, c);
    }
}

proof fn lemma_unequal_narrows(m: RelVarsModel, i1: int, i2: int, cv: Seq<Str>, all: Seq<Str>)
    requires
        0 <= i1 < m.len(),
        0 <= i2 < m.len(),
        i1 != i2,
        lists_distinct(m),
        m[i1].2.len() != 1,
        m[i2].2.len() != 1,
        all == kept_in(m[i1].2, m[i2].2),
        forall|k: int| 0 <= k < cv.len() ==> all.contains(#[trigger] cv[k]),
    ensures
        forall|k: int| 0 <= k < unequal_branches(m, i1, i2, cv, all).len() ==>
            narrows(#[trigger] unequal_branches(m, i1, i2, cv, all)[k], m) && lists_distinct(unequal_branches(m, i1, i2, cv, all)[k]),
    decreases cv.len(),
{
    if cv.len() > 0 {
        lemma_unequal_narrows(m, i1, i2, cv.drop_last(), all);
        let prev = unequal_branches(m, i1, i2, cv.drop_last(), all);
        let res = unequal_branches(m, i1, i2, cv, all);
        let val = cv.last();
        let l1 = m[i1].2;
        let l2 = m[i2].2;
        assert(all.contains(cv[cv.len() - 1]));
        lemma_kept_in_contains(l1, l2, val);
        let j0 = choose|j: int| 0 <= j < l2.len() && l2[j] == val;
        lemma_first_occurrence(l2, val, j0);
        let f = first_occurrence(l2, val);
        lemma_no_dup_remove(l2, f);
        let d = dropped_in(l1, all);
        lemma_dropped_in_distinct(l1, all);
        lemma_dropped_in_contains(l1, all, val);
        crate::text::lemma_push_no_duplicates(d, val);
        let a = d.push(val);
        assert forall|x: Str| a.contains(x) implies l1.contains(x) by {
            if x != val {
                let j = choose|j: int| 0 <= j < a.len() && a[j] == x;
                assert(d[j] == x);
                lemma_dropped_in_contains(l1, all, x);
            }
        }
        let b = l2.remove(f);
        lemma_pair_narrows(m, i1, a, i2, b);
        lemma_distinct_update(m, i1, a);
        lemma_distinct_update(m.update(i1, (m[i1].0, m[i1].1, a)), i2, b);
        let nr = with_values(m, i1, a, i2, b);
        assert forall|k: int| 0 <= k < res.len() implies
            narrows(#[trigger] res[k], m) && lists_distinct(res[k]) by {
            if k < prev.len() { assert(res[k] == prev[k]); } else { assert(res[k] == nr); }
        }
    }
}

proof fn lemma_stage_member(lists: Seq<RelVarsModel>, c: (bool, Str, Str), k: int)
    requires
        0 <= k < constraint_stage(lists, c).len(),
    ensures
        exists|i: int, q: int| 0 <= i < lists.len() && 0 <= q < constraint_result(lists[i], c).len()
            && constraint_stage(lists, c)[k] == #[trigger] constraint_result(lists[i], c)[q],
    decreases lists.len(),
{
    let last = constraint_result(lists.last(), c);
    let res = constraint_stage(lists, c);
    if k < last.len() {
        assert(res[k] == last[k]);
        assert(lists.last() == lists[lists.len() - 1]);
    } else {
        lemma_stage_member(lists.drop_last(), c, k - last.len());
        let (i, q) = choose|i: int, q: int| 0 <= i < lists.drop_last().len() && 0 <= q < constraint_result(lists.drop_last()[i], c).len()
            && constraint_stage(lists.drop_last(), c)[k - last.len()] == #[trigger] constraint_result(lists.drop_last()[i], c)[q];
        assert(lists.drop_last()[i] == lists[i]);
        assert(res[k] == constraint_stage(lists.drop_last(), c)[k - last.len()]);
    }
}

proof fn lemma_fold_holds(rv: RelVarsModel, cs: Seq<(bool, Str, Str)>, k: int)
    requires
        lists_distinct(rv),
        forall|j: int| 0 <= j < cs.len() ==> constraint_names_two(rv, #[trigger] cs[j]),
        0 <= k < constraints_fold(rv, cs).len(),
    ensures
        narrows(constraints_fold(rv, cs)[k], rv),
        lists_distinct(constraints_fold(rv, cs)[k]),
        forall|j: int| 0 <= j < cs.len() ==> constraint_holds(#[trigger] cs[j], constraints_fold(rv, cs)[k]),
    decreases cs.len(),
{
    let r = constraints_fold(rv, cs)[k];
    if cs.len() == 0 {
        lemma_narrows_refl(rv);
    } else {
        let prev = constraints_fold(rv, cs.drop_last());
        let c = cs.last();
        lemma_stage_member(prev, c, k);
        let (i, q) = choose|i: int, q: int| 0 <= i < prev.len() && 0 <= q < constraint_result(prev[i], c).len()
            && constraint_stage(prev, c)[k] == #[trigger] constraint_result(prev[i], c)[q];
        assert forall|j: int| 0 <= j < cs.drop_last().len() implies constraint_names_two(rv, #[trigger] cs.drop_last()[j]) by {
            assert(cs.drop_last()[j] == cs[j]);
        }
        lemma_fold_holds(rv, cs.drop_last(), i);
        let m = prev[i];
        assert(constraint_names_two(rv, cs[cs.len() - 1]));
        lemma_narrows_refl(rv);
        lemma_holds_kept_names(c, m, rv);
        lemma_constraint_result(m, c, q);
        lemma_narrows_trans(r, m, rv);
        assert forall|j: int| 0 <= j < cs.len() implies constraint_holds(#[trigger] cs[j], r) by {
            if j < cs.len() - 1 {
                assert(cs.drop_last()[j] == cs[j]);
                assert(constraint_names_two(rv, cs[j]));
                lemma_holds_kept_names(cs[j], m, rv);
                lemma_holds_kept(cs[j], r, m);
            }
        }
    }
}

proof fn lemma_holds_kept_names(c: (bool, Str, Str), m: RelVarsModel, rv: RelVarsModel)
    requires
        narrows(m, rv),
        constraint_names_two(rv, c),
    ensures
        constraint_names_two(m, c),
{
    lemma_indexes_by_names(m, rv, c);
}

/// The lists of relevant variables that `check_constraints` gives fulfil
/// every constraint: where each constraint names two different relevant
/// variables and no value list holds a value twice, in every list given an
/// equality fixes its two variables to the same one value and an inequality
/// leaves them no value in common; and each variable keeps only values it had.
pub proof fn law_constraints_fulfilled(rv: RelVarsModel, cs: Seq<(bool, Str, Str)>)
    requires
        lists_distinct(rv),
        forall|j: int| 0 <= j < cs.len() ==> constraint_names_two(rv, #[trigger] cs[j]),
    ensures
        forall|k: int, j: int| 0 <= k < check_constraints_result(rv, cs).len() && 0 <= j < cs.len()
            ==> constraint_holds(#[trigger] cs[j], #[trigger] check_constraints_result(rv, cs)[k]),
        forall|k: int| 0 <= k < check_constraints_result(rv, cs).len() ==> narrows(#[trigger] check_constraints_result(rv, cs)[k], rv),
{
    assert forall|k: int, j: int| 0 <= k < check_constraints_result(rv, cs).len() && 0 <= j < cs.len()
        implies constraint_holds(#[trigger] cs[j], #[trigger] check_constraints_result(rv, cs)[k]) by {
        lemma_fold_holds(rv, cs, k);
    }
    assert forall|k: int| 0 <= k < check_constraints_result(rv, cs).len() implies narrows(#[trigger] check_constraints_result(rv, cs)[k], rv) by {
        lemma_fold_holds(rv, cs, k);
    }
}


/// The number of methods of the list that only call the action `a`.
pub open spec fn sole_count(ms: Seq<MethodModel>, a: Str) -> nat
    decreases ms.len(),
{
    if ms.len() == 0 {
        0
    } else {
        sole_count(ms.drop_last(), a) + if sole_call(ms.last(), a) { 1nat } else { 0nat }
    }
}

proof fn lemma_sole_count_all(ms: Seq<MethodModel>, a: Str)
    requires
        forall|i: int| 0 <= i < ms.len() ==> sole_call(#[trigger] ms[i], a),
    ensures
        sole_count(ms, a) == ms.len(),
    decreases ms.len(),
{
    if ms.len() > 0 {
        assert forall|i: int| 0 <= i < ms.drop_last().len() implies sole_call(#[trigger] ms.drop_last()[i], a) by {
            assert(ms.drop_last()[i] == ms[i]);
        }
        lemma_sole_count_all(ms.drop_last(), a);
        assert(sole_call(ms[ms.len() - 1], a));
    }
}

proof fn lemma_list_trims(ms: Seq<MethodModel>, n: int, a: Str, found: Seq<MethodModel>)
    requires
        list_trims_full(ms, n, a, found) is Some,
    ensures
        ({
            let (f, c) = list_trims_full(ms, n, a, found).unwrap();
            &&& c == sole_count(ms, a)
            &&& f.len() >= found.len()
            &&& forall|i: int| 0 <= i < found.len() ==> #[trigger] f[i] == found[i]
            &&& forall|i: int| found.len() <= i < f.len() ==> ms.contains(#[trigger] f[i]) && sole_call(f[i], a)
            &&& c > 0 ==> c < n
        }),
    decreases ms.len(),
{
    if ms.len() > 0 {
        lemma_list_trims(ms.drop_last(), n, a, found);
        let (f0, c0) = list_trims_full(ms.drop_last(), n, a, found).unwrap();
        let (f, c) = list_trims_full(ms, n, a, found).unwrap();
        assert forall|i: int| found.len() <= i < f.len() implies ms.contains(#[trigger] f[i]) && sole_call(f[i], a) by {
            if i < f0.len() {
                assert(f[i] == f0[i]);
                let k = choose|k: int| 0 <= k < ms.drop_last().len() && ms.drop_last()[k] == f0[i];
                assert(ms[k] == f0[i]);
            } else {
                assert(f[i] == ms.last());
                assert(ms[ms.len() - 1] == ms.last());
            }
        }
        assert forall|i: int| 0 <= i < found.len() implies #[trigger] f[i] == found[i] by {
            assert(f[i] == f0[i]);
        }
    }
}

/// Whether `tm` lies in a list of the table that also holds a method not only calling `a`.
pub open spec fn trim_from_mixed_list(t: Seq<(Str, Seq<MethodModel>)>, tm: MethodModel, a: Str) -> bool {
    exists|j: int, q: int, q2: int| 0 <= j < t.len() && 0 <= q < t[j].1.len() && 0 <= q2 < t[j].1.len()
        && #[trigger] t[j].1[q] == tm && !sole_call(#[trigger] t[j].1[q2], a) && sole_call(tm, a)
}

proof fn lemma_table_trims_mixed(t: Seq<(Str, Seq<MethodModel>)>, a: Str)
    requires
        table_trims(t, a) is Some,
    ensures
        forall|i: int| 0 <= i < table_trims(t, a).unwrap().len() ==> trim_from_mixed_list(t, #[trigger] table_trims(t, a).unwrap()[i], a),
    decreases t.len(),
{
    if t.len() > 0 {
        let f = table_trims(t.drop_last(), a).unwrap();
        lemma_table_trims_mixed(t.drop_last(), a);
        let ms = t.last().1;
        lemma_list_trims(ms, ms.len() as int, a, f);
        let (f2, c) = list_trims_full(ms, ms.len() as int, a, f).unwrap();
        assert forall|i: int| 0 <= i < f2.len() implies trim_from_mixed_list(t, #[trigger] f2[i], a) by {
            if i < f.len() {
                assert(f2[i] == f[i]);
                assert(trim_from_mixed_list(t.drop_last(), f[i], a));
                let (j, q, q2) = choose|j: int, q: int, q2: int| 0 <= j < t.drop_last().len() && 0 <= q < t.drop_last()[j].1.len()
                    && 0 <= q2 < t.drop_last()[j].1.len() && #[trigger] t.drop_last()[j].1[q] == f[i]
                    && !sole_call(#[trigger] t.drop_last()[j].1[q2], a) && sole_call(f[i], a);
                assert(t.drop_last()[j] == t[j]);
                assert(t[j].1[q] == f2[i] && !sole_call(t[j].1[q2], a));
            } else {
                let jl = t.len() - 1;
                assert(t[jl] == t.last());
                let q = choose|q: int| 0 <= q < ms.len() && ms[q] == f2[i];
                assert(c > 0) by {
                    if c == 0 {
                        assert(sole_call(f2[i], a));
                        lemma_sole_count_pos(ms, a, q);
                    }
                }
                if forall|k: int| 0 <= k < ms.len() ==> sole_call(#[trigger] ms[k], a) {
                    lemma_sole_count_all(ms, a);
                }
                let q2 = choose|k: int| 0 <= k < ms.len() && !sole_call(#[trigger] ms[k], a);
                assert(t[jl].1[q] == f2[i] && !sole_call(t[jl].1[q2], a));
            }
        }
    }
}

proof fn lemma_sole_count_pos(ms: Seq<MethodModel>, a: Str, q: int)
    requires
        0 <= q < ms.len(),
        sole_call(ms[q], a),
    ensures
        sole_count(ms, a) > 0,
    decreases ms.len(),
{
    if q < ms.len() - 1 {
        assert(ms.drop_last()[q] == ms[q]);
        lemma_sole_count_pos(ms.drop_last(), a, q);
    }
}

proof fn lemma_not_named_keeps(ms: Seq<MethodModel>, name: Str, q: int)
    requires
        0 <= q < ms.len(),
        ms[q].name != name,
    ensures
        methods_not_named(ms, name).len() > 0,
    decreases ms.len(),
{
    if q < ms.len() - 1 {
        assert(ms.drop_last()[q] == ms[q]);
        lemma_not_named_keeps(ms.drop_last(), name, q);
    }
}

/// The table files each method under its own task, no two entries share a
/// key, and no two methods of one list share a name.
pub open spec fn table_tidy(t: Seq<(Str, Seq<MethodModel>)>) -> bool {
    &&& table_filed(t)
    &&& forall|i: int, j: int| 0 <= i < j < t.len() ==> (#[trigger] t[i]).0 != (#[trigger] t[j]).0
    &&& forall|i: int, p: int, q: int| 0 <= i < t.len() && 0 <= p < q < t[i].1.len() ==> (#[trigger] t[i].1[p]).name != (#[trigger] t[i].1[q]).name
}

/// Whether every list of `t` that has a method in `orig` has one in `t` too.
pub open spec fn keeps_nonempty(t: Seq<(Str, Seq<MethodModel>)>, orig: Seq<(Str, Seq<MethodModel>)>) -> bool {
    &&& t.len() == orig.len()
    &&& forall|k: int| 0 <= k < t.len() && (#[trigger] orig[k]).1.len() > 0 ==> t[k].1.len() > 0
}

proof fn lemma_apply_trims_nonempty(t: Seq<(Str, Seq<MethodModel>)>, orig: Seq<(Str, Seq<MethodModel>)>, trims: Seq<MethodModel>, a: Str)
    requires
        table_within(t, orig),
        keeps_nonempty(t, orig),
        table_tidy(orig),
        forall|i: int| 0 <= i < trims.len() ==> trim_from_mixed_list(orig, #[trigger] trims[i], a),
    ensures
        keeps_nonempty(apply_method_trims(t, orig, trims), orig),
    decreases trims.len(),
{
    if trims.len() > 0 {
        assert forall|i: int| 0 <= i < trims.drop_last().len() implies trim_from_mixed_list(orig, #[trigger] trims.drop_last()[i], a) by {
            assert(trims.drop_last()[i] == trims[i]);
        }
        assert(trims_keyed(orig, trims.drop_last())) by {
            assert forall|k: int| 0 <= k < trims.drop_last().len() implies has_key(orig, (#[trigger] trims.drop_last()[k]).task.0) by {
                let tk = trims.drop_last()[k];
                assert(trim_from_mixed_list(orig, tk, a));
                let (j, q, q2) = choose|j: int, q: int, q2: int| 0 <= j < orig.len() && 0 <= q < orig[j].1.len() && 0 <= q2 < orig[j].1.len()
                    && #[trigger] orig[j].1[q] == tk && !sole_call(#[trigger] orig[j].1[q2], a) && sole_call(tk, a);
                assert(orig[j].1[q].task.0 == orig[j].0);
            }
        }
        lemma_apply_trims_within(t, orig, trims.drop_last());
        lemma_apply_trims_nonempty(t, orig, trims.drop_last(), a);
        let t2 = apply_method_trims(t, orig, trims.drop_last());
        let tm = trims.last();
        assert(trim_from_mixed_list(orig, trims[trims.len() - 1], a));
        let (j, q, q2) = choose|j: int, q: int, q2: int| 0 <= j < orig.len() && 0 <= q < orig[j].1.len() && 0 <= q2 < orig[j].1.len()
            && #[trigger] orig[j].1[q] == tm && !sole_call(#[trigger] orig[j].1[q2], a) && sole_call(tm, a);
        let key = tm.task.0;
        assert(orig[j].1[q].task.0 == orig[j].0);
        assert(has_key(orig, key));
        lemma_key_index_found(orig, key);
        lemma_key_index_same_keys(t2, orig, key);
        let ki = key_index(orig, key);
        assert(ki == j) by {
            if ki != j {
                if ki < j { assert(orig[ki].0 != orig[j].0); } else { assert(orig[j].0 != orig[ki].0); }
            }
        }
        assert(q != q2);
        assert(orig[j].1[q2].name != tm.name) by {
            if q < q2 { assert(orig[j].1[q].name != orig[j].1[q2].name); } else { assert(orig[j].1[q2].name != orig[j].1[q].name); }
        }
        lemma_not_named_keeps(orig[j].1, tm.name, q2);
        let r = t2.update(j, (key, methods_not_named(orig[j].1, tm.name)));
        assert forall|k: int| 0 <= k < r.len() && (#[trigger] orig[k]).1.len() > 0 implies r[k].1.len() > 0 by {
            if k != j { assert(r[k] == t2[k]); }
        }
    }
}

proof fn lemma_effects_trim_nonempty(nd: DomainModel, d: DomainModel, goal: StateModel, a: Str, es: Seq<EffectModel>)
    requires
        table_tidy(d.methods),
        table_within(nd.methods, d.methods),
        keeps_nonempty(nd.methods, d.methods),
    ensures
        keeps_nonempty(effects_trim(nd, d, goal, a, es).0.methods, d.methods),
        table_within(effects_trim(nd, d, goal, a, es).0.methods, d.methods),
    decreases es.len(),
{
    if es.len() > 0 {
        lemma_effects_trim_nonempty(nd, d, goal, a, es.drop_last());
        let (n2, stopped) = effects_trim(nd, d, goal, a, es.drop_last());
        if !stopped && !predicate_needed(d, goal, es.last().1) {
            if let Some(trims) = table_trims(d.methods, a) {
                if trims.len() > 0 {
                    lemma_table_trims_mixed(d.methods, a);
                    lemma_filed_is_keyed(d.methods);
                    lemma_trims_keyed(d.methods, a);
                    lemma_apply_trims_within(n2.methods, d.methods, trims);
                    lemma_apply_trims_nonempty(n2.methods, d.methods, trims, a);
                }
            }
        }
    }
}

proof fn lemma_filed_is_keyed(t: Seq<(Str, Seq<MethodModel>)>)
    requires
        table_filed(t),
    ensures
        table_keyed(t),
{
    assert forall|i: int, j: int| 0 <= i < t.len() && 0 <= j < t[i].1.len() implies has_key(t, (#[trigger] t[i].1[j]).task.0) by {
        assert(t[i].0 == t[i].1[j].task.0);
    }
}

proof fn lemma_actions_trim_nonempty(d: DomainModel, goal: StateModel, acts: Seq<ActionModel>)
    requires
        table_tidy(d.methods),
    ensures
        keeps_nonempty(actions_trim(d, goal, acts).methods, d.methods),
        table_within(actions_trim(d, goal, acts).methods, d.methods),
    decreases acts.len(),
{
    if acts.len() == 0 {
        assert forall|k: int| 0 <= k < d.methods.len() implies subseq_of((#[trigger] d.methods[k]).1, d.methods[k].1) by {
            lemma_subseq_refl(d.methods[k].1);
        }
    } else {
        lemma_actions_trim_nonempty(d, goal, acts.drop_last());
        let nd = actions_trim(d, goal, acts.drop_last());
        match acts.last().effect {
            Some(es) => lemma_effects_trim_nonempty(nd, d, goal, acts.last().name, es),
            None => {},
        }
    }
}

/// Trimming by effects never empties a task's list of methods: where the
/// table files each method under its own task, has each key once, and no
/// list holds two methods of one name, every list that had a method still has one.
pub proof fn law_effect_trim_keeps_methods(d: DomainModel, goal: StateModel)
    requires
        table_tidy(d.methods),
    ensures
        keeps_nonempty(effect_trimmed(d, goal).methods, d.methods),
{
    lemma_actions_trim_nonempty(d, goal, d.actions);
}


/// The relevant variables, each holding only its chosen value.
pub open spec fn singled(rv: RelVarsModel, sigma: Seq<Str>) -> RelVarsModel {
    Seq::new(rv.len(), |i: int| (rv[i].0, rv[i].1, seq![sigma[i]]))
}

/// Whether each relevant variable may still take its chosen value, and no
/// list of values is longer than a `Vec` can be.
pub open spec fn keeps_choice(rv: RelVarsModel, sigma: Seq<Str>) -> bool {
    &&& rv.len() == sigma.len()
    &&& forall|i: int| 0 <= i < rv.len() ==> (#[trigger] rv[i]).2.contains(sigma[i])
    &&& forall|i: int| 0 <= i < rv.len() ==> (#[trigger] rv[i]).2.len() <= usize::MAX
}

/// A literal whose arguments are constants or name relevant variables, and
/// whose facts in the state have exactly as many arguments.
pub open spec fn plain_literal(p: PreconditionModel, rv: RelVarsModel, state: StateModel) -> bool {
    &&& p.0 == 0 || p.0 == 1
    &&& forall|k: int| 0 <= k < p.2.len() && is_var(#[trigger] p.2[k]) ==> has_name(rv, p.2[k])
    &&& forall|i: int| 0 <= i < state.len() && (#[trigger] state[i]).0 == p.1 ==> state[i].1.len() == p.2.len()
    &&& rv.len() + p.2.len() <= usize::MAX
}

/// The value that an argument takes under the choice.
pub open spec fn chosen_arg(rv: RelVarsModel, sigma: Seq<Str>, a: Str) -> Str {
    if is_var(a) { sigma[first_named(rv, a)] } else { a }
}

/// The values that the arguments of a literal take under the choice.
pub open spec fn chosen_args(rv: RelVarsModel, sigma: Seq<Str>, args: Seq<Str>) -> Seq<Str> {
    Seq::new(args.len(), |q: int| chosen_arg(rv, sigma, args[q]))
}

proof fn lemma_match_singles(f: Seq<Str>, vl: Seq<Seq<Str>>, v: Seq<Str>, n: int)
    requires
        0 <= n <= f.len(),
        n <= vl.len(),
        v.len() == vl.len(),
        forall|q: int| 0 <= q < vl.len() ==> #[trigger] vl[q] == seq![v[q]],
    ensures
        match_count(f, vl, n) <= n,
        match_count(f, vl, n) == n <==> f.take(n) == v.take(n),
    decreases n,
{
    if n == 0 {
        assert(f.take(0) =~= v.take(0));
    } else {
        lemma_match_singles(f, vl, v, n - 1);
        let s = vl[n - 1];
        assert(s.drop_last() =~= Seq::<Str>::empty());
        assert(count_of(s.drop_last(), f[n - 1]) == 0);
        assert(s.last() == v[n - 1]);
        assert(count_of(s, f[n - 1]) == if v[n - 1] == f[n - 1] { 1nat } else { 0nat });
        if f.take(n) == v.take(n) {
            assert(f.take(n - 1) =~= f.take(n).drop_last());
            assert(v.take(n - 1) =~= v.take(n).drop_last());
            assert(f[n - 1] == f.take(n)[n - 1]);
        }
        if match_count(f, vl, n) == n {
            assert(f.take(n) =~= v.take(n)) by {
                assert(f.take(n - 1) == v.take(n - 1));
                assert forall|k: int| 0 <= k < n implies f.take(n)[k] == v.take(n)[k] by {
                    if k < n - 1 {
                        assert(f.take(n - 1)[k] == v.take(n - 1)[k]);
                    }
                }
            }
        }
    }
}

proof fn lemma_arg_values_singled(rv: RelVarsModel, sigma: Seq<Str>, args: Seq<Str>)
    requires
        sigma.len() == rv.len(),
        forall|k: int| 0 <= k < args.len() && is_var(#[trigger] args[k]) ==> has_name(rv, args[k]),
    ensures
        arg_values(args, singled(rv, sigma)).len() == args.len(),
        forall|q: int| 0 <= q < args.len() ==> #[trigger] arg_values(args, singled(rv, sigma))[q] == seq![chosen_args(rv, sigma, args)[q]],
    decreases args.len(),
{
    let s = singled(rv, sigma);
    if args.len() > 0 {
        let pa = args.drop_last();
        assert forall|k: int| 0 <= k < pa.len() && is_var(#[trigger] pa[k]) implies has_name(rv, pa[k]) by {
            assert(args[k] == pa[k]);
        }
        lemma_arg_values_singled(rv, sigma, pa);
        let a = args.last();
        assert(args[args.len() - 1] == a);
        assert(same_names(s, rv));
        lemma_same_names_props(rv, s);
        assert forall|q: int| 0 <= q < args.len() implies #[trigger] arg_values(args, s)[q] == seq![chosen_args(rv, sigma, args)[q]] by {
            if q < args.len() - 1 {
                assert(arg_values(pa, s)[q] == seq![chosen_args(rv, sigma, pa)[q]]);
                assert(pa[q] == args[q]);
            } else if is_var(a) {
                crate::toolbox::relvars::lemma_first_named_exists(rv, a);
            }
        }
    }
}

/// A literal holds of the chosen values exactly when the state has a fact
/// whose arguments are those values.
proof fn lemma_holds_singled(p: PreconditionModel, rv: RelVarsModel, sigma: Seq<Str>, problem: ProblemModel)
    requires
        sigma.len() == rv.len(),
        plain_literal(p, rv, problem.state),
    ensures
        literal_holds(problem.state, p.1, arg_values(p.2, singled(rv, sigma)))
            <==> exists|i: int| 0 <= i < problem.state.len() && (#[trigger] problem.state[i]).0 == p.1 && problem.state[i].1 == chosen_args(rv, sigma, p.2),
{
    let st = problem.state;
    let vl = arg_values(p.2, singled(rv, sigma));
    let v = chosen_args(rv, sigma, p.2);
    lemma_arg_values_singled(rv, sigma, p.2);
    if literal_holds(st, p.1, vl) {
        let i = choose|i: int| 0 <= i < st.len() && supports(#[trigger] st[i], p.1, vl);
        lemma_match_singles(st[i].1, vl, v, st[i].1.len() as int);
        assert(st[i].1.take(st[i].1.len() as int) =~= st[i].1);
        assert(v.take(v.len() as int) =~= v);
    }
    if exists|i: int| 0 <= i < st.len() && (#[trigger] st[i]).0 == p.1 && st[i].1 == v {
        let i = choose|i: int| 0 <= i < st.len() && (#[trigger] st[i]).0 == p.1 && st[i].1 == v;
        lemma_match_singles(st[i].1, vl, v, st[i].1.len() as int);
        assert(st[i].1.take(st[i].1.len() as int) =~= st[i].1);
        assert(v.take(v.len() as int) =~= v);
        assert(supports(st[i], p.1, vl));
    }
}

proof fn lemma_kept_choice(ts: Seq<Seq<usize>>, flags: Seq<bool>, lists: Seq<Seq<Str>>, p: int, n: int)
    requires
        0 <= n <= ts.len(),
        flags.len() == ts.len(),
        0 <= p < lists.len(),
        forall|i: int| 0 <= i < ts.len() ==> p < (#[trigger] ts[i]).len() && ts[i][p] < lists[p].len(),
    ensures
        kept(ts, flags, lists, p, n).no_duplicates(),
        forall|x: Str| kept(ts, flags, lists, p, n).contains(x) ==> lists[p].contains(x),
        forall|i: int| 0 <= i < n && #[trigger] flags[i] ==> kept(ts, flags, lists, p, n).contains(lists[p][ts[i][p] as int]),
    decreases n,
{
    if n > 0 {
        lemma_kept_choice(ts, flags, lists, p, n - 1);
        let prev = kept(ts, flags, lists, p, n - 1);
        let v = lists[p][ts[n - 1][p] as int];
        let cur = kept(ts, flags, lists, p, n);
        assert forall|x: Str| cur.contains(x) implies lists[p].contains(x) by {
            if flags[n - 1] && !prev.contains(v) && x == v {
                assert(lists[p][ts[n - 1][p] as int] == v);
            } else if flags[n - 1] && !prev.contains(v) {
                let k = choose|k: int| 0 <= k < cur.len() && cur[k] == x;
                assert(k < prev.len());
                assert(prev[k] == x);
            }
        }
        assert forall|i: int| 0 <= i < n && #[trigger] flags[i] implies cur.contains(lists[p][ts[i][p] as int]) by {
            if flags[n - 1] && !prev.contains(v) {
                assert(cur[cur.len() - 1] == v);
                if i < n - 1 {
                    let w = lists[p][ts[i][p] as int];
                    let k = choose|k: int| 0 <= k < prev.len() && prev[k] == w;
                    assert(cur[k] == w);
                }
            }
        }
    }
}

proof fn lemma_no_dup_len(k: Seq<Str>, l: Seq<Str>)
    requires
        k.no_duplicates(),
        forall|x: Str| k.contains(x) ==> l.contains(x),
    ensures
        k.len() <= l.len(),
{
    k.unique_seq_to_set();
    l.lemma_cardinality_of_set();
    vstd::seq_lib::seq_to_set_is_finite(l);
    assert(k.to_set().subset_of(l.to_set()));
    vstd::set_lib::lemma_len_subset(k.to_set(), l.to_set());
}

proof fn lemma_write_keeps(nrv: RelVarsModel, idx: Seq<(usize, bool)>, new: Seq<Seq<Str>>, y: Seq<Str>, n: int)
    requires
        0 <= n <= idx.len(),
        n <= new.len(),
        y.len() == nrv.len(),
        forall|q: int| 0 <= q < idx.len() ==> (#[trigger] idx[q]).0 < nrv.len(),
        forall|j: int| 0 <= j < nrv.len() ==> (#[trigger] nrv[j]).2.contains(y[j]) && nrv[j].2.len() <= usize::MAX,
        forall|q: int| 0 <= q < n ==> (#[trigger] new[q]).contains(y[idx[q].0 as int]) && new[q].len() <= usize::MAX,
    ensures
        write_lists(nrv, idx, new, n).0.len() == nrv.len(),
        forall|j: int| 0 <= j < nrv.len() ==> (#[trigger] write_lists(nrv, idx, new, n).0[j]).2.contains(y[j])
            && write_lists(nrv, idx, new, n).0[j].2.len() <= usize::MAX,
    decreases n,
{
    if n > 0 {
        lemma_write_keeps(nrv, idx, new, y, n - 1);
        let r = write_lists(nrv, idx, new, n - 1).0;
        let w = write_lists(nrv, idx, new, n).0;
        let j = idx[n - 1].0 as int;
        assert(new[n - 1].contains(y[j]));
        assert forall|k: int| 0 <= k < nrv.len() implies (#[trigger] w[k]).2.contains(y[k]) && w[k].2.len() <= usize::MAX by {
            if k != j {
                assert(w[k] == r[k]);
            }
        }
    }
}

proof fn lemma_setup_choice(args: Seq<Str>, nrv: RelVarsModel)
    requires
        forall|k: int| 0 <= k < args.len() && is_var(#[trigger] args[k]) ==> has_name(nrv, args[k]),
        nrv.len() + args.len() <= usize::MAX,
    ensures
        relvar_setup(args, nrv).0.len() == args.len(),
        relvar_setup(args, nrv).2.len() <= nrv.len() + args.len(),
        forall|q: int| 0 <= q < args.len() ==> (#[trigger] relvar_setup(args, nrv).0[q]).0 < relvar_setup(args, nrv).2.len()
            && relvar_setup(args, nrv).2[relvar_setup(args, nrv).0[q].0 as int].0 == args[q]
            && (is_var(args[q]) ==> relvar_setup(args, nrv).0[q].0 == first_named(nrv, args[q]))
            && (!is_var(args[q]) ==> relvar_setup(args, nrv).0[q].0 >= nrv.len()),
        forall|j: int| nrv.len() <= j < relvar_setup(args, nrv).2.len() ==> (#[trigger] relvar_setup(args, nrv).2[j]).2 == seq![relvar_setup(args, nrv).2[j].0],
    decreases args.len(),
{
    lemma_setup(args, nrv);
    if args.len() > 0 {
        let pa = args.drop_last();
        assert forall|k: int| 0 <= k < pa.len() && is_var(#[trigger] pa[k]) implies has_name(nrv, pa[k]) by {
            assert(args[k] == pa[k]);
        }
        lemma_setup_choice(pa, nrv);
        lemma_setup(pa, nrv);
        let prev = relvar_setup(pa, nrv);
        let su = relvar_setup(args, nrv);
        let a = args.last();
        assert(args[args.len() - 1] == a);
        if is_var(a) {
            crate::toolbox::relvars::lemma_first_named_exists(nrv, a);
            let f2 = first_named(nrv, a);
            assert(prev.2[f2] == nrv[f2]);
            assert(has_name(prev.2, a));
            crate::toolbox::relvars::lemma_first_named_exists(prev.2, a);
            let f1 = first_named(prev.2, a);
            assert(f1 <= f2);
            assert(prev.2[f1] == nrv[f1]);
            assert(f1 == f2);
        }
        assert forall|q: int| 0 <= q < args.len() implies (#[trigger] su.0[q]).0 < su.2.len()
            && su.2[su.0[q].0 as int].0 == args[q]
            && (is_var(args[q]) ==> su.0[q].0 == first_named(nrv, args[q]))
            && (!is_var(args[q]) ==> su.0[q].0 >= nrv.len()) by {
            if q < args.len() - 1 {
                assert(su.0[q] == prev.0[q]);
                assert(pa[q] == args[q]);
                assert(prev.0[q].0 < prev.2.len());
                assert(su.2[su.0[q].0 as int] == prev.2[prev.0[q].0 as int]);
            }
        }
    }
}

/// Trimming by a literal that the chosen values satisfy keeps each chosen
/// value, and finds a tuple.
proof fn lemma_literal_keeps(nrv: RelVarsModel, rv: RelVarsModel, sigma: Seq<Str>, p: PreconditionModel, state: StateModel, positive: bool)
    requires
        same_names(nrv, rv),
        names_distinct(rv),
        all_variables(rv),
        keeps_choice(nrv, sigma),
        plain_literal(p, rv, state),
        positive <==> exists|i: int| 0 <= i < state.len() && (#[trigger] state[i]).0 == p.1 && state[i].1 == chosen_args(rv, sigma, p.2),
    ensures
        keeps_choice(literal_trim(nrv, p.2, p.1, state, positive).0, sigma),
        same_names(literal_trim(nrv, p.2, p.1, state, positive).0, rv),
        literal_trim(nrv, p.2, p.1, state, positive).2,
{
    let args = p.2;
    let name = p.1;
    lemma_same_names_props(nrv, rv);
    assert(all_variables(nrv)) by {
        assert forall|j: int| 0 <= j < nrv.len() implies is_var(#[trigger] nrv[j].0) by {
            assert(rv[j].0 == nrv[j].0);
        }
    }
    assert forall|k: int| 0 <= k < args.len() && is_var(#[trigger] args[k]) implies has_name(nrv, args[k]) by {}
    lemma_setup(args, nrv);
    lemma_setup_choice(args, nrv);
    let su = relvar_setup(args, nrv);
    let lists = setup_lists(su.0, su.2);
    let sizes = sizes_of(lists);
    let ts = index_tuples(sizes);
    let flags = Seq::new(ts.len(), |i: int| tuple_found(state, name, args.len() as int, lists, ts[i]) == positive);
    let new = Seq::new(lists.len(), |q: int| kept(ts, flags, lists, q, ts.len() as int));
    let y = Seq::new(su.2.len(), |j: int| if j < nrv.len() { sigma[j] } else { su.2[j].0 });
    let v = chosen_args(rv, sigma, args);
    assert forall|j: int| 0 <= j < su.2.len() implies (#[trigger] su.2[j]).2.contains(y[j]) && su.2[j].2.len() <= usize::MAX by {
        if j < nrv.len() {
            assert(su.2[j] == nrv[j]);
        } else {
            assert(su.2[j].2 == seq![su.2[j].0]);
            assert(su.2[j].2[0] == y[j]);
        }
    }
    assert forall|q: int| 0 <= q < args.len() implies #[trigger] v[q] == y[su.0[q].0 as int] && lists[q] == su.2[su.0[q].0 as int].2 by {
        if is_var(args[q]) {
            crate::toolbox::relvars::lemma_first_named_exists(nrv, args[q]);
        }
    }
    let t = Seq::new(args.len(), |q: int| lists[q].index_of(v[q]) as usize);
    assert(in_bounds(t, sizes)) by {
        assert forall|q: int| 0 <= q < t.len() implies t[q] < sizes[q] by {
            assert(lists[q].contains(v[q]));
            assert(lists[q].len() <= usize::MAX);
        }
    }
    lemma_index_tuples_complete(sizes, t);
    lemma_index_tuples_bounds(sizes);
    let i = choose|i: int| 0 <= i < ts.len() && ts[i] == t;
    assert(tuple_values(lists, t) =~= v) by {
        assert forall|q: int| 0 <= q < t.len() implies tuple_values(lists, t)[q] == v[q] by {
            assert(lists[q].contains(v[q]));
        }
    }
    assert(flags[i]) by {
        if positive {
            let f = choose|f: int| 0 <= f < state.len() && (#[trigger] state[f]).0 == name && state[f].1 == v;
            assert(state[f].1.take(t.len() as int) =~= state[f].1);
        } else if tuple_found(state, name, args.len() as int, lists, t) {
            let f = choose|f: int| 0 <= f < state.len() && (#[trigger] state[f]).0 == name && state[f].1.len() >= t.len()
                && state[f].1.take(t.len() as int) == tuple_values(lists, t);
            assert(state[f].1.take(t.len() as int) =~= state[f].1);
        }
    }
    assert forall|q: int| 0 <= q < su.0.len() implies (#[trigger] new[q]).contains(y[su.0[q].0 as int]) && new[q].len() <= usize::MAX by {
        assert forall|k: int| 0 <= k < ts.len() implies q < (#[trigger] ts[k]).len() && ts[k][q] < lists[q].len() by {
            assert(in_bounds(ts[k], sizes));
        }
        lemma_kept_choice(ts, flags, lists, q, ts.len() as int);
        lemma_no_dup_len(new[q], lists[q]);
        assert(lists[q][t[q] as int] == v[q]);
    }
    lemma_write_keeps(su.2, su.0, new, y, su.0.len() as int);
    lemma_literal_trim_names(nrv, args, name, state, positive);
    lemma_same_names_trans(literal_trim(nrv, args, name, state, positive).0, nrv, rv);
    let w = write_lists(su.2, su.0, new, su.0.len() as int).0;
    lemma_write_lists_names(su.2, su.0, new, su.0.len() as int);
    if su.1 {
        assert forall|j: int| 0 <= j < nrv.len() implies is_var(#[trigger] w[j].0) by {
            assert(su.2[j] == nrv[j]);
        }
        assert forall|j: int| nrv.len() <= j < w.len() implies !is_var(#[trigger] w[j].0) by {
            assert(!is_var(su.2[j].0));
        }
        lemma_variables_only_prefix(w, nrv.len() as int);
    }
    let res = literal_trim(nrv, args, name, state, positive).0;
    assert forall|j: int| 0 <= j < res.len() implies (#[trigger] res[j]).2.contains(sigma[j]) && res[j].2.len() <= usize::MAX by {
        assert(res[j] == w[j]);
        assert(y[j] == sigma[j]);
    }
    assert(flags.contains(true)) by {
        assert(flags[i] == true);
    }
}

proof fn lemma_step_keeps(rv: RelVarsModel, p: PreconditionModel, objects: Seq<(Str, Str, Seq<Str>)>, problem: ProblemModel, nrv: RelVarsModel, sigma: Seq<Str>, cleared: bool)
    requires
        rv.len() > 0,
        same_names(nrv, rv),
        names_distinct(rv),
        all_variables(rv),
        keeps_choice(nrv, sigma),
        plain_literal(p, rv, problem.state),
        precondition_holds(p, singled(rv, sigma), problem),
    ensures
        !trim_step(rv, p, objects, problem.state, nrv, cleared).3,
        same_names(trim_step(rv, p, objects, problem.state, nrv, cleared).0, rv),
        keeps_choice(trim_step(rv, p, objects, problem.state, nrv, cleared).0, sigma),
        cleared ==> trim_step(rv, p, objects, problem.state, nrv, cleared).1,
{
    lemma_holds_singled(p, rv, sigma, problem);
    lemma_literal_keeps(nrv, rv, sigma, p, problem.state, p.0 == 0);
}

proof fn lemma_pass_keeps(rv: RelVarsModel, pres: Seq<PreconditionModel>, objects: Seq<(Str, Str, Seq<Str>)>, problem: ProblemModel, nrv: RelVarsModel, sigma: Seq<Str>, cleared: bool, n: int)
    requires
        rv.len() > 0,
        0 <= n <= pres.len(),
        same_names(nrv, rv),
        names_distinct(rv),
        all_variables(rv),
        keeps_choice(nrv, sigma),
        forall|k: int| 0 <= k < pres.len() ==> plain_literal(#[trigger] pres[k], rv, problem.state) && precondition_holds(pres[k], singled(rv, sigma), problem),
    ensures
        !trim_pass(rv, pres, objects, problem.state, nrv, cleared, n).3,
        same_names(trim_pass(rv, pres, objects, problem.state, nrv, cleared, n).0, rv),
        keeps_choice(trim_pass(rv, pres, objects, problem.state, nrv, cleared, n).0, sigma),
        cleared ==> trim_pass(rv, pres, objects, problem.state, nrv, cleared, n).1,
    decreases n,
{
    if n > 0 {
        lemma_pass_keeps(rv, pres, objects, problem, nrv, sigma, cleared, n - 1);
        let prev = trim_pass(rv, pres, objects, problem.state, nrv, cleared, n - 1);
        lemma_step_keeps(rv, pres[n - 1], objects, problem, prev.0, sigma, prev.1);
    }
}

proof fn lemma_rounds_keep(rv: RelVarsModel, pres: Seq<PreconditionModel>, objects: Seq<(Str, Str, Seq<Str>)>, problem: ProblemModel, nrv: RelVarsModel, sigma: Seq<Str>, fuel: nat)
    requires
        rv.len() > 0,
        same_names(nrv, rv),
        names_distinct(rv),
        all_variables(rv),
        keeps_choice(nrv, sigma),
        forall|k: int| 0 <= k < pres.len() ==> plain_literal(#[trigger] pres[k], rv, problem.state) && precondition_holds(pres[k], singled(rv, sigma), problem),
    ensures
        keeps_choice(trim_rounds(rv, pres, objects, problem.state, nrv, true, fuel).0, sigma),
        trim_rounds(rv, pres, objects, problem.state, nrv, true, fuel).1,
    decreases fuel,
{
    lemma_pass_keeps(rv, pres, objects, problem, nrv, sigma, true, pres.len() as int);
    let p = trim_pass(rv, pres, objects, problem.state, nrv, true, pres.len() as int);
    if p.2 && fuel > 0 {
        lemma_rounds_keep(rv, pres, objects, problem, p.0, sigma, (fuel - 1) as nat);
    }
}

/// Trimming keeps every solution: where all preconditions are literals over
/// the relevant variables (facts of exact arity), every choice of one value
/// for each variable under which each literal holds keeps its values through
/// `precon_trimmer`, and the trimmer reports the preconditions cleared.
pub proof fn law_trimmer_keeps_solutions(rv: RelVarsModel, pres: Seq<PreconditionModel>, problem: ProblemModel, sigma: Seq<Str>)
    requires
        rv.len() > 0,
        names_distinct(rv),
        all_variables(rv),
        keeps_choice(rv, sigma),
        forall|k: int| 0 <= k < pres.len() ==> plain_literal(#[trigger] pres[k], rv, problem.state) && precondition_holds(pres[k], singled(rv, sigma), problem),
    ensures
        trimmer_result(rv, pres, problem.objects, problem.state).1,
        forall|i: int| 0 <= i < rv.len() ==> (#[trigger] trimmer_result(rv, pres, problem.objects, problem.state).0[i]).2.contains(sigma[i]),
{
    assert(same_names(rv, rv));
    lemma_rounds_keep(rv, pres, problem.objects, problem, rv, sigma, trim_fuel(rv));
    let r = trim_rounds(rv, pres, problem.objects, problem.state, rv, true, trim_fuel(rv));
    assert forall|j: int| 0 <= j < r.0.len() implies (#[trigger] r.0[j]).2.len() > 0 by {
        assert(r.0[j].2.contains(sigma[j]));
    }
}

} // verus!
