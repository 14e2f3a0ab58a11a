//! Properties of the planner's model of a problem: the types of objects, the
//! values of method parameters, what reaching the goal means, and the facts
//! that effects write.
use vstd::prelude::*;
use crate::datastructures::domain::Str;
use crate::datastructures::node::RelVarsModel;
use crate::datastructures::problem::StateModel;
use crate::text::is_var;
use crate::toolbox::{goal_reached, goal_fact_reached, args_start_with};
use crate::toolbox::effect::{effect_values, param_values};
use crate::toolbox::precondition::names_distinct;
use crate::toolbox::relvars::{has_name, first_named, lemma_first_named_exists, dedup_merge};
use crate::toolbox::lists::intersect_first;
use crate::toolbox::update::{parent_types, supertypes, supertypes_of_list, typed_object, updated_objects, objects_of_type, task_entries, param_entries, method_entries, updated_relvars};
use crate::datastructures::domain::{ArgumentModel, MethodModel};
use crate::datastructures::problem::ProblemModel;

verus! {

// ------------------------------------------------------------------------
// Reaching the goal

proof fn lemma_prefix_by_index(args: Seq<Str>, prefix: Seq<Str>)
    ensures
        args_start_with(args, prefix) <==> (prefix.len() <= args.len()
            && forall|k: int| 0 <= k < prefix.len() ==> #[trigger] args[k] == prefix[k]),
{
    if prefix.len() <= args.len() && forall|k: int| 0 <= k < prefix.len() ==> #[trigger] args[k] == prefix[k] {
        assert(args.take(prefix.len() as int) =~= prefix);
    }
    if args_start_with(args, prefix) {
        assert forall|k: int| 0 <= k < prefix.len() implies #[trigger] args[k] == prefix[k] by {
            assert(args.take(prefix.len() as int)[k] == args[k]);
        }
    }
}

/// Whether a fact of a state matches a goal fact: the same predicate, and
/// arguments that begin with the goal fact's arguments.
pub open spec fn fact_covers(fact: (Str, Seq<Str>), goal_fact: (Str, Seq<Str>)) -> bool {
    &&& fact.0 == goal_fact.0
    &&& goal_fact.1.len() <= fact.1.len()
    &&& forall|k: int| 0 <= k < goal_fact.1.len() ==> #[trigger] fact.1[k] == goal_fact.1[k]
}

/// Whether some fact of a state matches a goal fact.
pub open spec fn covered_in(state: StateModel, goal_fact: (Str, Seq<Str>)) -> bool {
    exists|j: int| 0 <= j < state.len() && fact_covers(#[trigger] state[j], goal_fact)
}

proof fn lemma_covered_iff_reached(state: StateModel, goal_fact: (Str, Seq<Str>))
    ensures
        covered_in(state, goal_fact) <==> goal_fact_reached(state, goal_fact),
{
    if covered_in(state, goal_fact) {
        let j = choose|j: int| 0 <= j < state.len() && fact_covers(#[trigger] state[j], goal_fact);
        lemma_prefix_by_index(state[j].1, goal_fact.1);
        assert(state[j].0 == goal_fact.0 && args_start_with(state[j].1, goal_fact.1));
    }
    if goal_fact_reached(state, goal_fact) {
        let j = choose|j: int| 0 <= j < state.len() && (#[trigger] state[j]).0 == goal_fact.0 && args_start_with(state[j].1, goal_fact.1);
        lemma_prefix_by_index(state[j].1, goal_fact.1);
        assert(fact_covers(state[j], goal_fact));
    }
}

/// The goal is reached exactly when every goal fact is matched by a fact of
/// the state with the same predicate whose arguments begin with the goal
/// fact's arguments; one goal fact without such a fact means the goal is not
/// reached. A problem without a goal has always reached it.
pub proof fn law_goal_needs_every_fact(state: StateModel, goal: StateModel)
    ensures
        goal_reached(state, Some(goal)) <==> forall|i: int| 0 <= i < goal.len() ==> covered_in(state, #[trigger] goal[i]),
        goal_reached(state, None),
{
    let g = Some(goal);
    assert(g.unwrap() == goal);
    assert forall|i: int| 0 <= i < goal.len() implies
        (covered_in(state, #[trigger] goal[i]) <==> goal_fact_reached(state, goal[i])) by {
        lemma_covered_iff_reached(state, goal[i]);
    }
}

// ------------------------------------------------------------------------
// The facts that effects write

proof fn lemma_single_value(params: RelVarsModel, var: Str, j: int)
    requires
        names_distinct(params),
        0 <= j < params.len(),
        params[j].0 == var,
    ensures
        param_values(params, var) == seq![params[j].2[0]],
    decreases params.len(),
{
    let p = params.drop_last();
    if j == params.len() - 1 {
        assert forall|q: int| 0 <= q < p.len() implies (#[trigger] p[q]).0 != var by {
            assert(params[q].0 != params[j].0);
        }
        lemma_no_value(p, var);
        assert(param_values(p, var).push(params[j].2[0]) =~= seq![params[j].2[0]]);
    } else {
        assert(names_distinct(p)) by {
            assert forall|a: int, b: int| 0 <= a < b < p.len() implies (#[trigger] p[a]).0 != (#[trigger] p[b]).0 by {
                assert(params[a].0 != params[b].0);
            }
        }
        assert(p[j] == params[j]);
        lemma_single_value(p, var, j);
        assert(params.last().0 != var) by {
            assert(params[params.len() - 1].0 != params[j].0);
        }
    }
}

proof fn lemma_no_value(params: RelVarsModel, var: Str)
    requires
        forall|q: int| 0 <= q < params.len() ==> (#[trigger] params[q]).0 != var,
    ensures
        param_values(params, var) == Seq::<Str>::empty(),
    decreases params.len(),
{
    if params.len() > 0 {
        let p = params.drop_last();
        assert forall|q: int| 0 <= q < p.len() implies (#[trigger] p[q]).0 != var by {
            assert(params[q] == p[q]);
        }
        lemma_no_value(p, var);
        assert(params[params.len() - 1].0 != var);
    }
}

/// The values an effect writes have one entry per argument, in place: where
/// the relevant variables have distinct names and every variable argument
/// names one of them, a constant argument stands for itself and a variable
/// for the first value of its relevant variable.
pub proof fn law_effect_values_in_place(args: Seq<Str>, params: RelVarsModel)
    requires
        names_distinct(params),
        forall|k: int| 0 <= k < args.len() && is_var(#[trigger] args[k]) ==> has_name(params, args[k]),
    ensures
        effect_values(args, params).len() == args.len(),
        forall|k: int| 0 <= k < args.len() && !is_var(#[trigger] args[k]) ==> effect_values(args, params)[k] == args[k],
        forall|k: int, j: int| 0 <= k < args.len() && 0 <= j < params.len() && is_var(#[trigger] args[k]) && (#[trigger] params[j]).0 == args[k]
            ==> effect_values(args, params)[k] == params[j].2[0],
    decreases args.len(),
{
    if args.len() > 0 {
        let a = args.drop_last();
        let n = args.len() - 1;
        assert forall|k: int| 0 <= k < a.len() && is_var(#[trigger] a[k]) implies has_name(params, a[k]) by {
            assert(args[k] == a[k]);
        }
        law_effect_values_in_place(a, params);
        let prev = effect_values(a, params);
        let x = args[n];
        assert(args.last() == x);
        let tail = if is_var(x) { param_values(params, x) } else { seq![x] };
        if is_var(x) {
            assert(has_name(params, x));
            let j = choose|j: int| 0 <= j < params.len() && (#[trigger] params[j]).0 == x;
            lemma_single_value(params, x, j);
        }
        assert(tail.len() == 1);
        let cur = effect_values(args, params);
        assert(cur == prev + tail);
        assert forall|k: int| 0 <= k < args.len() && !is_var(#[trigger] args[k]) implies cur[k] == args[k] by {
            if k < n {
                assert(a[k] == args[k]);
            }
        }
        assert forall|k: int, j: int| 0 <= k < args.len() && 0 <= j < params.len() && is_var(#[trigger] args[k]) && (#[trigger] params[j]).0 == args[k]
            implies cur[k] == params[j].2[0] by {
            if k < n {
                assert(a[k] == args[k]);
            } else {
                lemma_single_value(params, x, j);
            }
        }
    }
}

// ------------------------------------------------------------------------
// The values of a method's parameters

/// Whether the problem has an object named `v` that has type `t` among its types.
pub open spec fn object_of_type(objects: Seq<(Str, Str, Seq<Str>)>, v: Str, t: Str) -> bool {
    exists|o: int| 0 <= o < objects.len() && (#[trigger] objects[o]).0 == v && objects[o].2.contains(t)
}

proof fn lemma_objects_of_type_members(objects: Seq<(Str, Str, Seq<Str>)>, t: Str)
    ensures
        forall|v: Str| objects_of_type(objects, t).contains(v) <==> object_of_type(objects, v, t),
    decreases objects.len(),
{
    if objects.len() > 0 {
        let rest = objects.drop_last();
        lemma_objects_of_type_members(rest, t);
        let n = objects.len() - 1;
        let last = objects[n];
        assert(objects.last() == last);
        let cur = objects_of_type(objects, t);
        let prev = objects_of_type(rest, t);
        assert forall|v: Str| cur.contains(v) <==> object_of_type(objects, v, t) by {
            assert(object_of_type(objects, v, t) <==> (object_of_type(rest, v, t) || (last.0 == v && last.2.contains(t)))) by {
                if object_of_type(objects, v, t) {
                    let o = choose|o: int| 0 <= o < objects.len() && (#[trigger] objects[o]).0 == v && objects[o].2.contains(t);
                    if o < n {
                        assert(rest[o] == objects[o]);
                    }
                }
                if object_of_type(rest, v, t) {
                    let o = choose|o: int| 0 <= o < rest.len() && (#[trigger] rest[o]).0 == v && rest[o].2.contains(t);
                    assert(objects[o] == rest[o]);
                }
                if last.0 == v && last.2.contains(t) {
                    assert(objects[n].0 == v);
                }
            }
            if last.2.contains(t) {
                assert(cur == prev.push(last.0));
                if cur.contains(v) {
                    let k = choose|k: int| 0 <= k < cur.len() && cur[k] == v;
                    if k < prev.len() {
                        assert(prev[k] == v);
                        assert(prev.contains(v));
                    }
                }
                if prev.contains(v) {
                    let k = choose|k: int| 0 <= k < prev.len() && prev[k] == v;
                    assert(cur[k] == v);
                }
                if v == last.0 {
                    assert(cur[prev.len() as int] == v);
                }
            } else {
                assert(cur == prev);
            }
        }
    }
}

proof fn lemma_task_entries_named(name: Str, typ: Str, task_args: Seq<Str>, old: RelVarsModel, objects: Seq<(Str, Str, Seq<Str>)>, n: int)
    ensures
        forall|k: int| 0 <= k < task_entries(name, typ, task_args, old, objects, n).len()
            ==> (#[trigger] task_entries(name, typ, task_args, old, objects, n)[k]).0 == name,
    decreases n,
{
    if n > 0 {
        lemma_task_entries_named(name, typ, task_args, old, objects, n - 1);
        let rest = task_entries(name, typ, task_args, old, objects, n - 1);
        let cur = task_entries(name, typ, task_args, old, objects, n);
        assert forall|k: int| 0 <= k < cur.len() implies (#[trigger] cur[k]).0 == name by {
            if k < rest.len() {
                assert(cur[k] == rest[k]);
            }
        }
    }
}

proof fn lemma_param_entries_named(p: ArgumentModel, task_args: Seq<Str>, old: RelVarsModel, objects: Seq<(Str, Str, Seq<Str>)>)
    ensures
        forall|k: int| 0 <= k < param_entries(p, task_args, old, objects).len()
            ==> (#[trigger] param_entries(p, task_args, old, objects)[k]).0 == p.name,
{
    lemma_task_entries_named(p.name, p.object_type, task_args, old, objects, task_args.len() as int);
}

/// The entry that a parameter the task does not name contributes.
pub open spec fn untasked_entry(p: ArgumentModel, objects: Seq<(Str, Str, Seq<Str>)>) -> (Str, Str, Seq<Str>) {
    (p.name, p.object_type, objects_of_type(objects, p.object_type))
}

proof fn lemma_method_entries_single(m: MethodModel, old: RelVarsModel, objects: Seq<(Str, Str, Seq<Str>)>, i: int, n: int)
    requires
        0 <= i < m.parameters.len(),
        0 <= n <= m.parameters.len(),
        !m.task.1.contains(m.parameters[i].name),
        forall|j: int| 0 <= j < m.parameters.len() && j != i ==> (#[trigger] m.parameters[j]).name != m.parameters[i].name,
    ensures
        n <= i ==> forall|k: int| 0 <= k < method_entries(m, old, objects, n).len()
            ==> (#[trigger] method_entries(m, old, objects, n)[k]).0 != m.parameters[i].name,
        n > i ==> exists|k0: int| 0 <= k0 < method_entries(m, old, objects, n).len()
            && method_entries(m, old, objects, n)[k0] == untasked_entry(m.parameters[i], objects)
            && forall|k: int| 0 <= k < method_entries(m, old, objects, n).len()
                && (#[trigger] method_entries(m, old, objects, n)[k]).0 == m.parameters[i].name ==> k == k0,
    decreases n,
{
    let name = m.parameters[i].name;
    if n > 0 {
        lemma_method_entries_single(m, old, objects, i, n - 1);
        let prev = method_entries(m, old, objects, n - 1);
        let p = m.parameters[n - 1];
        let pe = param_entries(p, m.task.1, old, objects);
        let cur = method_entries(m, old, objects, n);
        assert(cur == prev + pe);
        lemma_param_entries_named(p, m.task.1, old, objects);
        if n - 1 != i {
            assert(p.name != name);
            assert forall|k: int| prev.len() <= k < cur.len() implies cur[k].0 != name by {
                assert(cur[k] == pe[k - prev.len()]);
            }
            if n - 1 > i {
                let k0 = choose|k0: int| 0 <= k0 < prev.len()
                    && prev[k0] == untasked_entry(m.parameters[i], objects)
                    && forall|k: int| 0 <= k < prev.len() && (#[trigger] prev[k]).0 == name ==> k == k0;
                assert(cur[k0] == prev[k0]);
                assert forall|k: int| 0 <= k < cur.len() && (#[trigger] cur[k]).0 == name implies k == k0 by {
                    if k < prev.len() {
                        assert(cur[k] == prev[k]);
                    }
                }
            } else {
                assert forall|k: int| 0 <= k < cur.len() implies (#[trigger] cur[k]).0 != name by {
                    if k < prev.len() {
                        assert(cur[k] == prev[k]);
                    }
                }
            }
        } else {
            assert(pe == seq![untasked_entry(m.parameters[i], objects)]);
            let k0 = prev.len() as int;
            assert(cur[k0] == pe[0]);
            assert forall|k: int| 0 <= k < cur.len() && (#[trigger] cur[k]).0 == name implies k == k0 by {
                if k < prev.len() {
                    assert(cur[k] == prev[k]);
                }
            }
        }
    }
}

proof fn lemma_merge_keeps_single(input: RelVarsModel, name: Str, k0: int, n: int)
    requires
        0 <= k0 < input.len(),
        0 <= n <= input.len(),
        input[k0].0 == name,
        forall|k: int| 0 <= k < input.len() && (#[trigger] input[k]).0 == name ==> k == k0,
    ensures
        forall|x: Str| has_name(dedup_merge(input, n), x) <==> exists|j: int| 0 <= j < n && (#[trigger] input[j]).0 == x,
        n > k0 ==> has_name(dedup_merge(input, n), name),
        n > k0 ==> forall|k: int| 0 <= k < dedup_merge(input, n).len() && (#[trigger] dedup_merge(input, n)[k]).0 == name
            ==> dedup_merge(input, n)[k] == input[k0],
    decreases n,
{
    if n > 0 {
        lemma_merge_keeps_single(input, name, k0, n - 1);
        let r = dedup_merge(input, n - 1);
        let x = input[n - 1];
        let cur = dedup_merge(input, n);
        if has_name(r, x.0) {
            lemma_first_named_exists(r, x.0);
            let d = first_named(r, x.0);
            assert(cur == r.update(d, (r[d].0, r[d].1, intersect_first(seq![r[d].2, x.2]))));
            assert(x.0 != name) by {
                if x.0 == name {
                    let j = choose|j: int| 0 <= j < n - 1 && (#[trigger] input[j]).0 == x.0;
                    assert(j == k0);
                    assert(n - 1 == k0);
                }
            }
            assert forall|y: Str| has_name(cur, y) <==> exists|j: int| 0 <= j < n && (#[trigger] input[j]).0 == y by {
                if has_name(cur, y) {
                    let k = choose|k: int| 0 <= k < cur.len() && (#[trigger] cur[k]).0 == y;
                    assert(r[k].0 == y);
                    assert(has_name(r, y));
                    let j = choose|j: int| 0 <= j < n - 1 && (#[trigger] input[j]).0 == y;
                    assert(0 <= j < n);
                }
                if exists|j: int| 0 <= j < n && (#[trigger] input[j]).0 == y {
                    let j = choose|j: int| 0 <= j < n && (#[trigger] input[j]).0 == y;
                    if j < n - 1 {
                        assert(has_name(r, y));
                    }
                    let k = choose|k: int| 0 <= k < r.len() && (#[trigger] r[k]).0 == y;
                    assert(cur[k].0 == y);
                }
            }
            if n > k0 {
                assert(n - 1 > k0 || n - 1 == k0);
                assert(n - 1 != k0);
                let k = choose|k: int| 0 <= k < r.len() && (#[trigger] r[k]).0 == name;
                assert(cur[k].0 == name);
                assert forall|k: int| 0 <= k < cur.len() && (#[trigger] cur[k]).0 == name implies cur[k] == input[k0] by {
                    assert(k != d);
                    assert(cur[k] == r[k]);
                }
            }
        } else {
            assert(cur == r.push(x));
            assert forall|y: Str| has_name(cur, y) <==> exists|j: int| 0 <= j < n && (#[trigger] input[j]).0 == y by {
                if has_name(cur, y) {
                    let k = choose|k: int| 0 <= k < cur.len() && (#[trigger] cur[k]).0 == y;
                    if k < r.len() {
                        assert(r[k].0 == y);
                        assert(has_name(r, y));
                        let j = choose|j: int| 0 <= j < n - 1 && (#[trigger] input[j]).0 == y;
                        assert(0 <= j < n);
                    } else {
                        assert(input[n - 1].0 == y);
                    }
                }
                if exists|j: int| 0 <= j < n && (#[trigger] input[j]).0 == y {
                    let j = choose|j: int| 0 <= j < n && (#[trigger] input[j]).0 == y;
                    if j < n - 1 {
                        assert(has_name(r, y));
                        let k = choose|k: int| 0 <= k < r.len() && (#[trigger] r[k]).0 == y;
                        assert(cur[k].0 == y);
                    } else {
                        assert(cur[r.len() as int].0 == y);
                    }
                }
            }
            if n > k0 {
                if n - 1 == k0 {
                    assert(!has_name(r, name)) by {
                        if has_name(r, name) {
                            let j = choose|j: int| 0 <= j < n - 1 && (#[trigger] input[j]).0 == name;
                            assert(j == k0);
                        }
                    }
                    assert(cur[r.len() as int].0 == name);
                    assert forall|k: int| 0 <= k < cur.len() && (#[trigger] cur[k]).0 == name implies cur[k] == input[k0] by {
                        if k < r.len() {
                            assert(r[k].0 == name);
                        }
                    }
                } else {
                    assert(x.0 != name);
                    let k = choose|k: int| 0 <= k < r.len() && (#[trigger] r[k]).0 == name;
                    assert(cur[k].0 == name);
                    assert forall|k: int| 0 <= k < cur.len() && (#[trigger] cur[k]).0 == name implies cur[k] == input[k0] by {
                        if k < r.len() {
                            assert(cur[k] == r[k]);
                        }
                    }
                }
            }
        }
    }
}

/// A parameter of a method that the method's task does not name (and no
/// other parameter shares its name) gets exactly the objects of its type:
/// after `update_relevant_variables` there is an entry for it, and its values
/// are the objects whose list of types (subtypes included, as
/// `update_objects` writes it) holds the parameter's type.
pub proof fn law_untasked_parameter_gets_its_objects(problem: ProblemModel, m: MethodModel, old: RelVarsModel, i: int)
    requires
        0 <= i < m.parameters.len(),
        !m.task.1.contains(m.parameters[i].name),
        forall|j: int| 0 <= j < m.parameters.len() && j != i ==> (#[trigger] m.parameters[j]).name != m.parameters[i].name,
    ensures
        has_name(updated_relvars(problem, m, old), m.parameters[i].name),
        forall|k: int| 0 <= k < updated_relvars(problem, m, old).len()
            && (#[trigger] updated_relvars(problem, m, old)[k]).0 == m.parameters[i].name ==> {
                &&& updated_relvars(problem, m, old)[k].1 == m.parameters[i].object_type
                &&& forall|v: Str| updated_relvars(problem, m, old)[k].2.contains(v)
                    <==> object_of_type(problem.objects, v, m.parameters[i].object_type)
            },
{
    let n = m.parameters.len() as int;
    let e = method_entries(m, old, problem.objects, n);
    lemma_method_entries_single(m, old, problem.objects, i, n);
    let k0 = choose|k0: int| 0 <= k0 < e.len()
        && e[k0] == untasked_entry(m.parameters[i], problem.objects)
        && forall|k: int| 0 <= k < e.len() && (#[trigger] e[k]).0 == m.parameters[i].name ==> k == k0;
    lemma_merge_keeps_single(e, m.parameters[i].name, k0, e.len() as int);
    lemma_objects_of_type_members(problem.objects, m.parameters[i].object_type);
}

// ------------------------------------------------------------------------
// The types of objects

/// Whether the domain declares `sup` as a supertype of `sub`: one of its
/// pairs of types, other than a type given as its own supertype or an empty
/// supertype.
pub open spec fn declared_supertype(types: Seq<(Str, Str)>, sub: Str, sup: Str) -> bool {
    exists|j: int| 0 <= j < types.len() && (#[trigger] types[j]).0 == sub && types[j].1 == sup
        && sup != sub && sup != Seq::<char>::empty()
}

/// Whether the `k`-th type of a chain has the next one as a declared supertype.
pub open spec fn chain_step(types: Seq<(Str, Str)>, chain: Seq<Str>, k: int) -> bool {
    declared_supertype(types, chain[k], chain[k + 1])
}

/// Whether a chain of types climbs the declared hierarchy one step at a time.
pub open spec fn type_chain(types: Seq<(Str, Str)>, chain: Seq<Str>) -> bool {
    forall|k: int| 0 <= k < chain.len() - 1 ==> #[trigger] chain_step(types, chain, k)
}

proof fn lemma_parents_declared(types: Seq<(Str, Str)>, sub: Str, sup: Str)
    ensures
        parent_types(types, sub).contains(sup) <==> declared_supertype(types, sub, sup),
    decreases types.len(),
{
    if types.len() > 0 {
        let rest = types.drop_last();
        lemma_parents_declared(rest, sub, sup);
        let n = types.len() - 1;
        let last = types[n];
        assert(types.last() == last);
        let prev = parent_types(rest, sub);
        let cur = parent_types(types, sub);
        assert(declared_supertype(types, sub, sup) <==> (declared_supertype(rest, sub, sup)
            || (last.0 == sub && last.1 == sup && sup != sub && sup != Seq::<char>::empty()))) by {
            if declared_supertype(types, sub, sup) {
                let j = choose|j: int| 0 <= j < types.len() && (#[trigger] types[j]).0 == sub && types[j].1 == sup
                    && sup != sub && sup != Seq::<char>::empty();
                if j < n {
                    assert(rest[j] == types[j]);
                }
            }
            if declared_supertype(rest, sub, sup) {
                let j = choose|j: int| 0 <= j < rest.len() && (#[trigger] rest[j]).0 == sub && rest[j].1 == sup
                    && sup != sub && sup != Seq::<char>::empty();
                assert(types[j] == rest[j]);
            }
            if last.0 == sub && last.1 == sup && sup != sub && sup != Seq::<char>::empty() {
                assert(types[n].0 == sub);
            }
        }
        if last.0 == sub && last.1 != last.0 && last.1 != Seq::<char>::empty() {
            assert(cur == prev.push(last.1));
            if cur.contains(sup) {
                let k = choose|k: int| 0 <= k < cur.len() && cur[k] == sup;
                if k < prev.len() {
                    assert(prev[k] == sup);
                }
            }
            if prev.contains(sup) {
                let k = choose|k: int| 0 <= k < prev.len() && prev[k] == sup;
                assert(cur[k] == sup);
            }
            if last.1 == sup {
                assert(cur[prev.len() as int] == sup);
            }
        } else {
            assert(cur == prev);
        }
    }
}

proof fn lemma_list_expansion_holds(types: Seq<(Str, Str)>, ps: Seq<Str>, fuel: nat, p: Str, x: Str)
    requires
        ps.contains(p),
        supertypes(types, p, fuel).contains(x),
    ensures
        supertypes_of_list(types, ps, fuel).contains(x),
    decreases ps.len(),
{
    let whole = supertypes_of_list(types, ps, fuel);
    let head = supertypes(types, ps.last(), fuel);
    let tail = supertypes_of_list(types, ps.drop_last(), fuel);
    assert(whole == head + tail);
    if ps.last() == p {
        let k = choose|k: int| 0 <= k < head.len() && head[k] == x;
        assert(whole[k] == x);
    } else {
        let i = choose|i: int| 0 <= i < ps.len() && ps[i] == p;
        assert(i < ps.len() - 1);
        assert(ps.drop_last()[i] == p);
        lemma_list_expansion_holds(types, ps.drop_last(), fuel, p, x);
        let k = choose|k: int| 0 <= k < tail.len() && tail[k] == x;
        assert(whole[head.len() + k] == x);
    }
}

proof fn lemma_chain_expanded(types: Seq<(Str, Str)>, chain: Seq<Str>, fuel: nat)
    requires
        type_chain(types, chain),
        2 <= chain.len(),
        chain.len() - 1 <= fuel,
    ensures
        supertypes(types, chain[0], fuel).contains(chain.last()),
    decreases chain.len(),
{
    let ps = parent_types(types, chain[0]);
    let rest_fuel = (fuel - 1) as nat;
    let whole = supertypes(types, chain[0], fuel);
    let tail = supertypes_of_list(types, ps, rest_fuel);
    assert(whole == ps + tail);
    assert(chain_step(types, chain, 0));
    lemma_parents_declared(types, chain[0], chain[1]);
    if chain.len() == 2 {
        let k = choose|k: int| 0 <= k < ps.len() && ps[k] == chain[1];
        assert(whole[k] == chain.last());
    } else {
        let sub = chain.drop_first();
        assert forall|k: int| 0 <= k < sub.len() - 1 implies #[trigger] chain_step(types, sub, k) by {
            assert(chain_step(types, chain, k + 1));
        }
        lemma_chain_expanded(types, sub, rest_fuel);
        assert(sub[0] == chain[1]);
        assert(sub.last() == chain.last());
        lemma_list_expansion_holds(types, ps, rest_fuel, chain[1], chain.last());
        let k = choose|k: int| 0 <= k < tail.len() && tail[k] == chain.last();
        assert(whole[ps.len() + k] == chain.last());
    }
}

proof fn lemma_chain_without_repeats(types: Seq<(Str, Str)>, chain: Seq<Str>) -> (c: Seq<Str>)
    requires
        type_chain(types, chain),
        1 <= chain.len(),
    ensures
        type_chain(types, c),
        1 <= c.len(),
        c[0] == chain[0],
        c.last() == chain.last(),
        c.no_duplicates(),
    decreases chain.len(),
{
    if chain.no_duplicates() {
        chain
    } else {
        let (a, b) = choose|a: int, b: int| 0 <= a < chain.len() && 0 <= b < chain.len() && a != b && chain[a] == chain[b];
        let i = if a < b { a } else { b };
        let j = if a < b { b } else { a };
        let shorter = chain.subrange(0, i) + chain.subrange(j, chain.len() as int);
        assert(shorter.len() == chain.len() - (j - i));
        assert forall|k: int| 0 <= k < shorter.len() implies #[trigger] shorter[k] == (if k < i { chain[k] } else { chain[k - i + j] }) by {}
        assert forall|k: int| 0 <= k < shorter.len() - 1 implies #[trigger] chain_step(types, shorter, k) by {
            if k < i - 1 {
                assert(chain_step(types, chain, k));
            } else if k == i - 1 {
                assert(chain_step(types, chain, k));
                assert(shorter[k + 1] == chain[j]);
                assert(chain[j] == chain[i]);
            } else {
                assert(chain_step(types, chain, k - i + j));
            }
        }
        assert(shorter[0] == chain[0]);
        assert(shorter.last() == chain.last());
        lemma_chain_without_repeats(types, shorter)
    }
}

proof fn lemma_chain_length_bound(types: Seq<(Str, Str)>, c: Seq<Str>)
    requires
        type_chain(types, c),
        1 <= c.len(),
        c.no_duplicates(),
    ensures
        c.len() - 1 <= types.len(),
{
    let steps = (c.len() - 1) as nat;
    let idx = Seq::new(steps, |k: int| choose|j: int| 0 <= j < types.len() && (#[trigger] types[j]).0 == c[k] && types[j].1 == c[k + 1]
        && c[k + 1] != c[k] && c[k + 1] != Seq::<char>::empty());
    assert forall|k: int| 0 <= k < steps implies 0 <= #[trigger] idx[k] < types.len() && types[idx[k]].0 == c[k] by {
        assert(chain_step(types, c, k));
    }
    assert(idx.no_duplicates()) by {
        assert forall|a: int, b: int| 0 <= a < idx.len() && 0 <= b < idx.len() && a != b implies idx[a] != idx[b] by {
            assert(types[idx[a]].0 == c[a]);
            assert(types[idx[b]].0 == c[b]);
            assert(c[a] != c[b]);
        }
    }
    idx.unique_seq_to_set();
    vstd::set_lib::lemma_int_range(0, types.len() as int);
    let range = vstd::set_lib::set_int_range(0, types.len() as int);
    assert(idx.to_set().subset_of(range)) by {
        assert forall|x: int| idx.to_set().contains(x) implies range.contains(x) by {
            let k = choose|k: int| 0 <= k < idx.len() && idx[k] == x;
            assert(0 <= idx[k] < types.len());
        }
    }
    vstd::set_lib::lemma_len_subset(idx.to_set(), range);
}

/// Every object knows all its types: after `update_objects`, every type that
/// can be reached from an object's declared type by following the domain's
/// (subtype, supertype) pairs any number of times, the declared type itself
/// included, is in the object's list of types.
pub proof fn law_objects_know_every_supertype(objects: Seq<(Str, Str, Seq<Str>)>, constants: Option<Seq<(Str, Str)>>, types: Seq<(Str, Str)>, i: int, chain: Seq<Str>)
    requires
        0 <= i < updated_objects(objects, constants, types).len(),
        1 <= chain.len(),
        chain[0] == updated_objects(objects, constants, types)[i].1,
        type_chain(types, chain),
    ensures
        updated_objects(objects, constants, types)[i].2.contains(chain.last()),
{
    let all = match constants {
        Some(c) => objects + c.map_values(|p: (Str, Str)| (p.0, p.1, Seq::<Str>::empty())),
        None => objects,
    };
    let o = all[i];
    let listed = updated_objects(objects, constants, types)[i].2;
    assert(updated_objects(objects, constants, types)[i] == typed_object(types, o));
    let ups = supertypes(types, o.1, types.len());
    assert(listed == seq![o.1] + ups);
    let c = lemma_chain_without_repeats(types, chain);
    if c.len() == 1 {
        assert(listed[0] == chain.last());
    } else {
        lemma_chain_length_bound(types, c);
        lemma_chain_expanded(types, c, types.len());
        let k = choose|k: int| 0 <= k < ups.len() && ups[k] == c.last();
        assert(listed[k + 1] == chain.last());
    }
}

proof fn lemma_list_member(types: Seq<(Str, Str)>, ps: Seq<Str>, fuel: nat, x: Str) -> (p: Str)
    requires
        supertypes_of_list(types, ps, fuel).contains(x),
    ensures
        ps.contains(p),
        supertypes(types, p, fuel).contains(x),
    decreases ps.len(),
{
    let whole = supertypes_of_list(types, ps, fuel);
    if ps.len() == 0 {
        assert(whole.len() == 0);
        ps[0]
    } else {
        let head = supertypes(types, ps.last(), fuel);
        let tail = supertypes_of_list(types, ps.drop_last(), fuel);
        assert(whole == head + tail);
        let k = choose|k: int| 0 <= k < whole.len() && whole[k] == x;
        assert(ps[ps.len() - 1] == ps.last());
        if k < head.len() {
            assert(head[k] == x);
            ps.last()
        } else {
            assert(tail[k - head.len()] == x);
            let p = lemma_list_member(types, ps.drop_last(), fuel, x);
            let i = choose|i: int| 0 <= i < ps.drop_last().len() && ps.drop_last()[i] == p;
            assert(ps[i] == p);
            p
        }
    }
}

proof fn lemma_listed_reachable(types: Seq<(Str, Str)>, t: Str, fuel: nat, x: Str) -> (c: Seq<Str>)
    requires
        supertypes(types, t, fuel).contains(x),
    ensures
        type_chain(types, c),
        2 <= c.len(),
        c[0] == t,
        c.last() == x,
    decreases fuel,
{
    let whole = supertypes(types, t, fuel);
    if fuel == 0 {
        assert(whole.len() == 0);
        seq![t, x]
    } else {
        let ps = parent_types(types, t);
        let tail = supertypes_of_list(types, ps, (fuel - 1) as nat);
        assert(whole == ps + tail);
        let k = choose|k: int| 0 <= k < whole.len() && whole[k] == x;
        if k < ps.len() {
            assert(ps[k] == x);
            lemma_parents_declared(types, t, x);
            let c = seq![t, x];
            assert(chain_step(types, c, 0));
            assert forall|q: int| 0 <= q < c.len() - 1 implies #[trigger] chain_step(types, c, q) by {
                assert(q == 0);
            }
            c
        } else {
            assert(tail[k - ps.len()] == x);
            let p = lemma_list_member(types, ps, (fuel - 1) as nat, x);
            lemma_parents_declared(types, t, p);
            let rest = lemma_listed_reachable(types, p, (fuel - 1) as nat, x);
            let c = seq![t] + rest;
            assert forall|q: int| 0 <= q < c.len() - 1 implies #[trigger] chain_step(types, c, q) by {
                if q == 0 {
                    assert(c[0] == t && c[1] == rest[0]);
                } else {
                    assert(chain_step(types, rest, q - 1));
                    assert(c[q] == rest[q - 1] && c[q + 1] == rest[q]);
                }
            }
            assert(c.last() == rest.last());
            c
        }
    }
}

/// An object's list of types holds nothing else: after `update_objects`,
/// every type listed for an object is reached from its declared type by
/// following the domain's (subtype, supertype) pairs, the declared type
/// itself included; and the list begins with the declared type.
pub proof fn law_objects_list_only_their_types(objects: Seq<(Str, Str, Seq<Str>)>, constants: Option<Seq<(Str, Str)>>, types: Seq<(Str, Str)>, i: int, k: int)
    requires
        0 <= i < updated_objects(objects, constants, types).len(),
        0 <= k < updated_objects(objects, constants, types)[i].2.len(),
    ensures
        updated_objects(objects, constants, types)[i].2[0] == updated_objects(objects, constants, types)[i].1,
        exists|c: Seq<Str>| type_chain(types, c) && 1 <= c.len()
            && c[0] == updated_objects(objects, constants, types)[i].1
            && c.last() == updated_objects(objects, constants, types)[i].2[k],
{
    let all = match constants {
        Some(c) => objects + c.map_values(|p: (Str, Str)| (p.0, p.1, Seq::<Str>::empty())),
        None => objects,
    };
    let o = all[i];
    let entry = updated_objects(objects, constants, types)[i];
    assert(entry == typed_object(types, o));
    let ups = supertypes(types, o.1, types.len());
    assert(entry.2 == seq![o.1] + ups);
    if k == 0 {
        let c = seq![o.1];
        assert(type_chain(types, c));
        assert(c.last() == entry.2[k]);
    } else {
        assert(ups[k - 1] == entry.2[k]);
        let c = lemma_listed_reachable(types, o.1, types.len(), entry.2[k]);
        assert(c.last() == entry.2[k]);
    }
}

/// `update_objects` keeps the problem's objects, names and declared types
/// in place, and appends the domain's constants after them.
pub proof fn law_update_objects_keeps_objects(objects: Seq<(Str, Str, Seq<Str>)>, constants: Option<Seq<(Str, Str)>>, types: Seq<(Str, Str)>)
    ensures
        updated_objects(objects, constants, types).len() == objects.len() + match constants { Some(c) => c.len(), None => 0 },
        forall|i: int| 0 <= i < objects.len() ==> (#[trigger] updated_objects(objects, constants, types)[i]).0 == objects[i].0
            && updated_objects(objects, constants, types)[i].1 == objects[i].1,
        constants is Some ==> forall|j: int| 0 <= j < constants.unwrap().len() ==>
            (#[trigger] updated_objects(objects, constants, types)[objects.len() + j]).0 == constants.unwrap()[j].0
            && updated_objects(objects, constants, types)[objects.len() + j].1 == constants.unwrap()[j].1,
{
}

} // verus!
