//! The methods of a domain: their subtasks and the order in which they are tried.
use vstd::prelude::*;
use itertools::Itertools;
use crate::datastructures::domain::{Str, Domain, Action, ActionModel, Task, TaskModel, Method, MethodModel, MethodSubtask,
    MethodSubtaskModel, Argument, ArgumentModel, clone_methods};
use crate::datastructures::problem::Problem;
use crate::text::contains_string;
use crate::toolbox::domain_ops::{key_index, action_index, has_key};

verus! {

/// The methods that the table files under `k`, if it has such an entry.
pub open spec fn table_lookup(table: Seq<(Str, Seq<MethodModel>)>, k: Str) -> Option<Seq<MethodModel>> {
    let i = key_index(table, k);
    if i < table.len() { Some(table[i].1) } else { None }
}

/// Looks up the methods of a task.
pub fn get_methods<'a>(table: &'a Vec<(String, Vec<Method>)>, k: &String) -> (res: Option<&'a Vec<Method>>)
    ensures
        match table_lookup(table.deep_view(), k@) {
            Some(ms) => res is Some && res.unwrap().deep_view() == ms,
            None => res is None,
        },
{
    let ghost t = table.deep_view();
    let mut i: usize = 0;
    while i < table.len() && table[i].0 != *k
        invariant
            i <= table.len(),
            t == table.deep_view(),
            key_index(t.take(i as int), k@) == i,
        decreases table.len() - i,
    {
        assert(t[i as int] == table@[i as int].deep_view());
        assert(t.take(i + 1).drop_last() =~= t.take(i as int));
        i = i + 1;
    }
    if i < table.len() {
        assert(t[i as int] == table@[i as int].deep_view());
        assert(t.take(i + 1).drop_last() =~= t.take(i as int));
        proof { lemma_key_index_prefix(t, k@, i as int + 1); }
        Some(&table[i].1)
    } else {
        assert(t.take(i as int) =~= t);
        None
    }
}

proof fn lemma_key_index_prefix(t: Seq<(Str, Seq<MethodModel>)>, k: Str, j: int)
    requires
        0 < j <= t.len(),
        key_index(t.take(j), k) < j,
    ensures
        key_index(t, k) == key_index(t.take(j), k),
    decreases t.len() - j,
{
    if j < t.len() {
        assert(t.take(j + 1).drop_last() =~= t.take(j));
        lemma_key_index_prefix(t, k, j + 1);
    } else {
        assert(t.take(j) =~= t);
    }
}

// ------------------------------------------------------------------------
// A stable sort of methods by their number of subtasks, most first.
// ------------------------------------------------------------------------

/// Where a method goes in a list sorted by number of subtasks, most first:
/// before the first method with fewer subtasks.
pub open spec fn insert_position(sorted: Seq<MethodModel>, x: MethodModel) -> int
    decreases sorted.len(),
{
    if sorted.len() == 0 {
        0
    } else {
        let p = insert_position(sorted.drop_last(), x);
        if p < sorted.len() - 1 { p } else if sorted.last().subtasks.len() < x.subtasks.len() { sorted.len() - 1 } else { sorted.len() as int }
    }
}

/// A list of methods sorted by number of subtasks, most first, methods with
/// as many subtasks keeping their order.
pub open spec fn sorted_by_subtasks(s: Seq<MethodModel>) -> Seq<MethodModel>
    decreases s.len(),
{
    if s.len() == 0 {
        s
    } else {
        let r = sorted_by_subtasks(s.drop_last());
        r.insert(insert_position(r, s.last()), s.last())
    }
}

proof fn lemma_insert_position_bounds(sorted: Seq<MethodModel>, x: MethodModel)
    ensures
        0 <= insert_position(sorted, x) <= sorted.len(),
    decreases sorted.len(),
{
    if sorted.len() > 0 {
        lemma_insert_position_bounds(sorted.drop_last(), x);
    }
}

proof fn lemma_insert_position_prefix(t: Seq<MethodModel>, x: MethodModel, j: int)
    requires
        0 < j <= t.len(),
        insert_position(t.take(j), x) < j,
    ensures
        insert_position(t, x) == insert_position(t.take(j), x),
    decreases t.len() - j,
{
    if j < t.len() {
        assert(t.take(j + 1).drop_last() =~= t.take(j));
        lemma_insert_position_prefix(t, x, j + 1);
    } else {
        assert(t.take(j) =~= t);
    }
}

pub proof fn lemma_sorted_len_pub(s: Seq<MethodModel>)
    ensures
        sorted_by_subtasks(s).len() == s.len(),
    decreases s.len(),
{
    if s.len() > 0 {
        lemma_sorted_len_pub(s.drop_last());
        lemma_insert_position_bounds(sorted_by_subtasks(s.drop_last()), s.last());
    }
}

/// Sorts methods by number of subtasks, most first, keeping the order of
/// methods with as many subtasks.
pub fn sort_by_subtasks(methods: &Vec<Method>) -> (res: Vec<Method>)
    ensures
        res.deep_view() == sorted_by_subtasks(methods.deep_view()),
{
    let ghost mv = methods.deep_view();
    let mut sorted: Vec<Method> = Vec::new();
    let mut i: usize = 0;
    while i < methods.len()
        invariant
            i <= methods.len(),
            mv == methods.deep_view(),
            sorted.deep_view() == sorted_by_subtasks(mv.take(i as int)),
            sorted.len() == i,
        decreases methods.len() - i,
    {
        let x = &methods[i];
        assert(mv[i as int] == x@);
        assert(mv.take(i + 1).drop_last() =~= mv.take(i as int));
        let ghost sv = sorted.deep_view();
        let mut p: usize = 0;
        while p < sorted.len() && !(sorted[p].subtasks.len() < x.subtasks.len())
            invariant
                p <= sorted.len(),
                sv == sorted.deep_view(),
                insert_position(sv.take(p as int), x@) == p,
            decreases sorted.len() - p,
        {
            assert(sv[p as int] == sorted@[p as int]@);
            assert(sv.take(p + 1).drop_last() =~= sv.take(p as int));
            p = p + 1;
        }
        if p < sorted.len() {
            assert(sv[p as int] == sorted@[p as int]@);
            assert(sv.take(p + 1).drop_last() =~= sv.take(p as int));
            proof { lemma_insert_position_prefix(sv, x@, p as int + 1); }
        } else {
            assert(sv.take(p as int) =~= sv);
        }
        sorted.insert(p, x.clone());
        assert(sorted.deep_view() =~= sv.insert(p as int, x@));
        i = i + 1;
    }
    assert(mv.take(i as int) =~= mv);
    sorted
}

/// The methods of a list that `goal_functions` names (`true`) or does not name (`false`).
pub open spec fn methods_by_goal(ms: Seq<MethodModel>, goal_functions: Seq<Str>, wanted: bool) -> Seq<MethodModel>
    decreases ms.len(),
{
    if ms.len() == 0 {
        Seq::empty()
    } else {
        let rest = methods_by_goal(ms.drop_last(), goal_functions, wanted);
        if goal_functions.contains(ms.last().name) == wanted { rest.push(ms.last()) } else { rest }
    }
}

/// The order in which the methods of a task are tried: with a goal, the
/// methods that do not serve the goal, then those that do (each group sorted
/// by number of subtasks, most first); without a goal, all methods so sorted.
pub open spec fn prioritized(table: Seq<(Str, Seq<MethodModel>)>, has_goal: bool, goal_functions: Seq<Str>, task: Str) -> Seq<MethodModel> {
    match table_lookup(table, task) {
        None => Seq::empty(),
        Some(ms) => if has_goal {
            sorted_by_subtasks(methods_by_goal(ms, goal_functions, false)) + sorted_by_subtasks(methods_by_goal(ms, goal_functions, true))
        } else {
            sorted_by_subtasks(ms)
        },
    }
}

fn split_by_goal(ms: &Vec<Method>, goal_functions: &Vec<String>, wanted: bool) -> (res: Vec<Method>)
    ensures
        res.deep_view() == methods_by_goal(ms.deep_view(), goal_functions.deep_view(), wanted),
{
    let ghost mv = ms.deep_view();
    let mut res: Vec<Method> = Vec::new();
    let mut j: usize = 0;
    while j < ms.len()
        invariant
            j <= ms.len(),
            mv == ms.deep_view(),
            res.deep_view() == methods_by_goal(mv.take(j as int), goal_functions.deep_view(), wanted),
        decreases ms.len() - j,
    {
        assert(mv[j as int] == ms@[j as int]@);
        assert(mv.take(j + 1).drop_last() =~= mv.take(j as int));
        let ghost before = res.deep_view();
        if contains_string(goal_functions, &ms[j].name) == wanted {
            res.push(ms[j].clone());
            assert(res.deep_view() =~= before.push(mv[j as int]));
        }
        j = j + 1;
    }
    assert(mv.take(j as int) =~= mv);
    res
}

/// Orders the methods of a task: with a goal, the methods that do not serve
/// the goal come first and those that do come last, each group with the
/// methods of most subtasks first.
pub fn prioritize_methods(domain: &Domain, problem: &Problem, goal_functions: &Vec<String>, task_name: String) -> (res: Vec<Method>)
    requires
        problem@.goal is None ==> has_key(domain@.methods, task_name@),
    ensures
        res.deep_view() == prioritized(domain@.methods, problem@.goal is Some, goal_functions.deep_view(), task_name@),
{
    let found = get_methods(&domain.methods, &task_name);
    match found {
        Some(ms) => {
            if problem.goal.is_some() {
                let mut method_list_rest = sort_by_subtasks(&split_by_goal(ms, goal_functions, false));
                let method_list_interesting = sort_by_subtasks(&split_by_goal(ms, goal_functions, true));
                let ghost a = method_list_rest.deep_view();
                let mut k: usize = 0;
                while k < method_list_interesting.len()
                    invariant
                        k <= method_list_interesting.len(),
                        method_list_rest.deep_view() == a + method_list_interesting.deep_view().take(k as int),
                    decreases method_list_interesting.len() - k,
                {
                    let ghost before = method_list_rest.deep_view();
                    method_list_rest.push(method_list_interesting[k].clone());
                    assert(method_list_interesting.deep_view().take(k + 1) =~= method_list_interesting.deep_view().take(k as int).push(method_list_interesting@[k as int]@));
                    assert(method_list_rest.deep_view() =~= before.push(method_list_interesting@[k as int]@));
                    k = k + 1;
                }
                assert(method_list_interesting.deep_view().take(k as int) =~= method_list_interesting.deep_view());
                method_list_rest
            } else {
                sort_by_subtasks(ms)
            }
        },
        None => {
            proof {
                if problem@.goal is None {
                    let i = choose|i: int| 0 <= i < domain@.methods.len() && (#[trigger] domain@.methods[i]).0 == task_name@;
                    lemma_key_index_found(domain@.methods, task_name@, i);
                }
            }
            Vec::new()
        },
    }
}

proof fn lemma_key_index_found(t: Seq<(Str, Seq<MethodModel>)>, k: Str, i: int)
    requires
        0 <= i < t.len(),
        t[i].0 == k,
    ensures
        key_index(t, k) <= i,
    decreases t.len(),
{
    if i < t.len() - 1 {
        lemma_key_index_found(t.drop_last(), k, i);
        assert(t.drop_last()[i] == t[i]);
    }
}

// ------------------------------------------------------------------------
// Subtasks of methods.
// ------------------------------------------------------------------------

/// Parameters renamed to the arguments of a call.
pub open spec fn renamed(params: Seq<ArgumentModel>, args: Seq<Str>) -> Seq<ArgumentModel> {
    Seq::new(params.len(), |x: int| ArgumentModel { name: args[x], object_type: params[x].object_type })
}

/// The index of the first task named `name`, or the number of tasks.
pub open spec fn task_index(tasks: Seq<TaskModel>, name: Str) -> int
    decreases tasks.len(),
{
    if tasks.len() == 0 {
        0
    } else {
        let i = task_index(tasks.drop_last(), name);
        if i < tasks.len() - 1 { i } else if tasks.last().name == name { tasks.len() - 1 } else { tasks.len() as int }
    }
}

/// A subtask of a method resolved to the task (or else the action) of its
/// name, with the callee's parameters renamed to the subtask's arguments
/// and the callee's own parameters beside it.
pub open spec fn resolved(sub: (Str, Str, Seq<Str>), tasks: Seq<TaskModel>, actions: Seq<ActionModel>) -> Option<(MethodSubtaskModel, Seq<ArgumentModel>)> {
    let ti = task_index(tasks, sub.0);
    let ai = action_index(actions, sub.0);
    if ti < tasks.len() {
        let t = tasks[ti];
        Some((MethodSubtaskModel::Task(TaskModel { parameters: renamed(t.parameters, sub.2), ..t }), t.parameters))
    } else if ai < actions.len() {
        let a = actions[ai];
        Some((MethodSubtaskModel::Action(ActionModel { parameters: renamed(a.parameters, sub.2), ..a }), a.parameters))
    } else {
        None
    }
}

/// The subtasks that resolve, in order.
pub open spec fn resolved_all(subs: Seq<(Str, Str, Seq<Str>)>, tasks: Seq<TaskModel>, actions: Seq<ActionModel>) -> Seq<(MethodSubtaskModel, Seq<ArgumentModel>)>
    decreases subs.len(),
{
    if subs.len() == 0 {
        Seq::empty()
    } else {
        let rest = resolved_all(subs.drop_last(), tasks, actions);
        match resolved(subs.last(), tasks, actions) {
            Some(r) => rest.push(r),
            None => rest,
        }
    }
}

/// A subtask names at least as many arguments as the callee it resolves to has parameters.
pub open spec fn arity_fits(sub: (Str, Str, Seq<Str>), tasks: Seq<TaskModel>, actions: Seq<ActionModel>) -> bool {
    let ti = task_index(tasks, sub.0);
    let ai = action_index(actions, sub.0);
    &&& ti < tasks.len() ==> tasks[ti].parameters.len() <= sub.2.len()
    &&& ti >= tasks.len() && ai < actions.len() ==> actions[ai].parameters.len() <= sub.2.len()
}

proof fn lemma_task_index_prefix(t: Seq<TaskModel>, k: Str, j: int)
    requires
        0 < j <= t.len(),
        task_index(t.take(j), k) < j,
    ensures
        task_index(t, k) == task_index(t.take(j), k),
    decreases t.len() - j,
{
    if j < t.len() {
        assert(t.take(j + 1).drop_last() =~= t.take(j));
        lemma_task_index_prefix(t, k, j + 1);
    } else {
        assert(t.take(j) =~= t);
    }
}

proof fn lemma_task_index_bounds(t: Seq<TaskModel>, k: Str)
    ensures
        0 <= task_index(t, k) <= t.len(),
    decreases t.len(),
{
    if t.len() > 0 { lemma_task_index_bounds(t.drop_last(), k); }
}

proof fn lemma_action_index_prefix(t: Seq<ActionModel>, k: Str, j: int)
    requires
        0 < j <= t.len(),
        action_index(t.take(j), k) < j,
    ensures
        action_index(t, k) == action_index(t.take(j), k),
    decreases t.len() - j,
{
    if j < t.len() {
        assert(t.take(j + 1).drop_last() =~= t.take(j));
        lemma_action_index_prefix(t, k, j + 1);
    } else {
        assert(t.take(j) =~= t);
    }
}

fn rename_params(params: &Vec<Argument>, args: &Vec<String>) -> (res: Vec<Argument>)
    requires
        params.len() <= args.len(),
    ensures
        res.deep_view() == renamed(params.deep_view(), args.deep_view()),
{
    let mut res: Vec<Argument> = Vec::new();
    let mut x: usize = 0;
    while x < params.len()
        invariant
            x <= params.len(),
            params.len() <= args.len(),
            res@.len() == x,
            forall|j: int| 0 <= j < x ==> (#[trigger] res@[j])@ == renamed(params.deep_view(), args.deep_view())[j],
        decreases params.len() - x,
    {
        res.push(Argument { name: args[x].clone(), object_type: params[x].object_type.clone() });
        x = x + 1;
    }
    assert(res.deep_view() =~= renamed(params.deep_view(), args.deep_view()));
    res
}

fn resolve_subtask(sub: &(String, String, Vec<String>), tasks: &Vec<Task>, actions: &Vec<Action>) -> (res: Option<(MethodSubtask, Vec<Argument>)>)
    requires
        arity_fits(sub.deep_view(), tasks.deep_view(), actions.deep_view()),
    ensures
        res.deep_view() == resolved(sub.deep_view(), tasks.deep_view(), actions.deep_view()),
{
    let ghost tv = tasks.deep_view();
    let ghost av = actions.deep_view();
    let mut ti: usize = 0;
    while ti < tasks.len() && tasks[ti].name != sub.0
        invariant
            ti <= tasks.len(),
            tv == tasks.deep_view(),
            task_index(tv.take(ti as int), sub.0@) == ti,
        decreases tasks.len() - ti,
    {
        assert(tv[ti as int] == tasks@[ti as int]@);
        assert(tv.take(ti + 1).drop_last() =~= tv.take(ti as int));
        ti = ti + 1;
    }
    if ti < tasks.len() {
        assert(tv[ti as int] == tasks@[ti as int]@);
        assert(tv.take(ti + 1).drop_last() =~= tv.take(ti as int));
        proof { lemma_task_index_prefix(tv, sub.0@, ti as int + 1); }
        let task = &tasks[ti];
        let parameters = rename_params(&task.parameters, &sub.2);
        let original = task.parameters.clone();
        assert(original.deep_view() =~= task.parameters.deep_view());
        let renamed_task = Task { name: task.name.clone(), parameters, alias: task.alias.clone(), id: task.id };
        return Some((MethodSubtask::Task(renamed_task), original));
    }
    assert(tv.take(ti as int) =~= tv);
    let mut ai: usize = 0;
    while ai < actions.len() && actions[ai].name != sub.0
        invariant
            ai <= actions.len(),
            av == actions.deep_view(),
            action_index(av.take(ai as int), sub.0@) == ai,
        decreases actions.len() - ai,
    {
        assert(av[ai as int] == actions@[ai as int]@);
        assert(av.take(ai + 1).drop_last() =~= av.take(ai as int));
        ai = ai + 1;
    }
    if ai < actions.len() {
        assert(av[ai as int] == actions@[ai as int]@);
        assert(av.take(ai + 1).drop_last() =~= av.take(ai as int));
        proof { lemma_action_index_prefix(av, sub.0@, ai as int + 1); }
        let action = &actions[ai];
        let parameters = rename_params(&action.parameters, &sub.2);
        let original = action.parameters.clone();
        assert(original.deep_view() =~= action.parameters.deep_view());
        let renamed_action = Action {
            name: action.name.clone(),
            parameters,
            precondition: crate::datastructures::domain::clone_opt_preconditions(&action.precondition),
            effect: crate::datastructures::domain::clone_opt_effects(&action.effect),
            id: action.id,
        };
        return Some((MethodSubtask::Action(renamed_action), original));
    }
    assert(av.take(ai as int) =~= av);
    None
}

/// Every subtask of every method fits the arity of the callee it resolves to.
pub open spec fn all_arities_fit(methods: Seq<(MethodModel, Seq<(Str, Str, Seq<Str>)>)>, tasks: Seq<TaskModel>, actions: Seq<ActionModel>) -> bool {
    forall|i: int, k: int| 0 <= i < methods.len() && 0 <= k < methods[i].1.len() ==> arity_fits(#[trigger] methods[i].1[k], tasks, actions)
}

/// Whether a subtask names at least as many arguments as the callee it resolves to has parameters.
pub fn arity_fits_exec(sub: &(String, String, Vec<String>), tasks: &Vec<Task>, actions: &Vec<Action>) -> (res: bool)
    ensures
        res == arity_fits(sub.deep_view(), tasks.deep_view(), actions.deep_view()),
{
    let ghost tv = tasks.deep_view();
    let ghost av = actions.deep_view();
    proof {
        lemma_task_index_bounds(tv, sub.0@);
    }
    let mut ti: usize = 0;
    while ti < tasks.len() && tasks[ti].name != sub.0
        invariant
            ti <= tasks.len(),
            tv == tasks.deep_view(),
            task_index(tv.take(ti as int), sub.0@) == ti,
        decreases tasks.len() - ti,
    {
        assert(tv[ti as int] == tasks@[ti as int]@);
        assert(tv.take(ti + 1).drop_last() =~= tv.take(ti as int));
        ti = ti + 1;
    }
    if ti < tasks.len() {
        assert(tv[ti as int] == tasks@[ti as int]@);
        assert(tv.take(ti + 1).drop_last() =~= tv.take(ti as int));
        proof { lemma_task_index_prefix(tv, sub.0@, ti as int + 1); }
        return tasks[ti].parameters.len() <= sub.2.len();
    }
    assert(tv.take(ti as int) =~= tv);
    let mut ai: usize = 0;
    while ai < actions.len() && actions[ai].name != sub.0
        invariant
            ai <= actions.len(),
            av == actions.deep_view(),
            action_index(av.take(ai as int), sub.0@) == ai,
        decreases actions.len() - ai,
    {
        assert(av[ai as int] == actions@[ai as int]@);
        assert(av.take(ai + 1).drop_last() =~= av.take(ai as int));
        ai = ai + 1;
    }
    if ai < actions.len() {
        assert(av[ai as int] == actions@[ai as int]@);
        assert(av.take(ai + 1).drop_last() =~= av.take(ai as int));
        proof { lemma_action_index_prefix(av, sub.0@, ai as int + 1); }
        return actions[ai].parameters.len() <= sub.2.len();
    }
    assert(av.take(ai as int) =~= av);
    true
}

/// Whether every subtask of every method fits the arity of its callee.
pub fn all_arities_fit_exec(methods: &Vec<(Method, Vec<(String, String, Vec<String>)>)>, tasks: &Vec<Task>, actions: &Vec<Action>) -> (res: bool)
    ensures
        res == all_arities_fit(methods.deep_view(), tasks.deep_view(), actions.deep_view()),
{
    let ghost mv = methods.deep_view();
    let mut i: usize = 0;
    while i < methods.len()
        invariant
            i <= methods.len(),
            mv == methods.deep_view(),
            forall|a: int, k: int| 0 <= a < i && 0 <= k < mv[a].1.len() ==> arity_fits(#[trigger] mv[a].1[k], tasks.deep_view(), actions.deep_view()),
        decreases methods.len() - i,
    {
        assert(mv[i as int] == methods@[i as int].deep_view());
        let subs = &methods[i].1;
        let mut k: usize = 0;
        while k < subs.len()
            invariant
                i < methods.len(),
                k <= subs.len(),
                mv == methods.deep_view(),
                subs.deep_view() == mv[i as int].1,
                forall|a: int, c: int| 0 <= a < i && 0 <= c < mv[a].1.len() ==> arity_fits(#[trigger] mv[a].1[c], tasks.deep_view(), actions.deep_view()),
                forall|c: int| 0 <= c < k ==> arity_fits(#[trigger] mv[i as int].1[c], tasks.deep_view(), actions.deep_view()),
            decreases subs.len() - k,
        {
            assert(subs.deep_view()[k as int] == subs@[k as int].deep_view());
            if !arity_fits_exec(&subs[k], tasks, actions) {
                return false;
            }
            k = k + 1;
        }
        i = i + 1;
    }
    true
}

/// Resolves the subtasks of parsed methods to the domain's tasks and actions.
pub fn update_method_subtasks(methods: Vec<(Method, Vec<(String, String, Vec<String>)>)>, actions: &Vec<Action>, tasks: &Vec<Task>) -> (res: Vec<Method>)
    requires
        all_arities_fit(methods.deep_view(), tasks.deep_view(), actions.deep_view()),
    ensures
        res.deep_view() == methods.deep_view().map_values(|m: (MethodModel, Seq<(Str, Str, Seq<Str>)>)|
            (MethodModel { subtasks: resolved_all(m.1, tasks.deep_view(), actions.deep_view()), ..m.0 })),
{
    let ghost mv = methods.deep_view();
    let ghost tv = tasks.deep_view();
    let ghost av = actions.deep_view();
    let mut update_method: Vec<Method> = Vec::new();
    let mut i: usize = 0;
    while i < methods.len()
        invariant
            i <= methods.len(),
            mv == methods.deep_view(),
            all_arities_fit(mv, tv, av),
            update_method@.len() == i,
            forall|j: int| 0 <= j < i ==> (#[trigger] update_method@[j])@ == (MethodModel { subtasks: resolved_all(mv[j].1, tv, av), ..mv[j].0 }),
        decreases methods.len() - i,
    {
        let entry = &methods[i];
        assert(mv[i as int] == entry.deep_view());
        let ghost sv = entry.1.deep_view();
        let mut subtask_list: Vec<(MethodSubtask, Vec<Argument>)> = Vec::new();
        let mut k: usize = 0;
        while k < entry.1.len()
            invariant
                i < methods.len(),
                k <= entry.1.len(),
                sv == entry.1.deep_view(),
                sv == mv[i as int].1,
                all_arities_fit(mv, tv, av),
                subtask_list.deep_view() == resolved_all(sv.take(k as int), tv, av),
            decreases entry.1.len() - k,
        {
            assert(sv[k as int] == entry.1@[k as int].deep_view());
            assert(sv.take(k + 1).drop_last() =~= sv.take(k as int));
            assert(arity_fits(mv[i as int].1[k as int], tv, av));
            let ghost before = subtask_list.deep_view();
            match resolve_subtask(&entry.1[k], tasks, actions) {
                Some(r) => {
                    let ghost rv = r.deep_view();
                    subtask_list.push(r);
                    assert(subtask_list.deep_view() =~= before.push(rv));
                },
                None => {},
            }
            k = k + 1;
        }
        assert(sv.take(k as int) =~= sv);
        let mut method = entry.0.clone();
        method.subtasks = subtask_list;
        update_method.push(method);
        i = i + 1;
    }
    assert(update_method.deep_view() =~= mv.map_values(|m: (MethodModel, Seq<(Str, Str, Seq<Str>)>)|
        (MethodModel { subtasks: resolved_all(m.1, tv, av), ..m.0 })));
    update_method
}

// ------------------------------------------------------------------------
// Orders of the subtasks of a partially ordered method.
// ------------------------------------------------------------------------

/// Whether `p` lists every index below `n` exactly once.
pub open spec fn is_index_permutation(p: Seq<usize>, n: nat) -> bool {
    &&& p.len() == n
    &&& forall|k: int| 0 <= k < p.len() ==> (#[trigger] p[k]) < n
    &&& p.no_duplicates()
}

/// Whether `a` comes before `b` in lexicographic order.
pub open spec fn lex_before(a: Seq<usize>, b: Seq<usize>) -> bool {
    exists|k: int| 0 <= k < a.len() && k < b.len() && a.take(k) == b.take(k) && #[trigger] a[k] < b[k]
}

/// The orders of the indexes `0..n` in the sequence that `itertools` yields them.
pub uninterp spec fn subtask_orders(n: usize) -> Seq<Seq<usize>>;

/// Every order of the indexes `0..n`, each once.
///
/// Calls `Itertools::permutations` on the range `0..n` with length `n`,
/// then `Itertools::unique`: the crate documents that the first yields all
/// the `n`-permutations of the range and that the second drops repeated
/// items; its example and `permutations.rs` (the cycle algorithm over the
/// indexes of the input) give them in lexicographic order of the input's
/// positions, here the values themselves. The contract claims that the
/// result lists each permutation of `0..n` exactly once, in lexicographic
/// order, and names the result `subtask_orders(n)`.
#[verifier::external_body]
fn index_permutations(n: usize) -> (res: Vec<Vec<usize>>)
    ensures
        res.deep_view() == subtask_orders(n),
        forall|i: int| 0 <= i < res.len() ==> is_index_permutation((#[trigger] res@[i])@, n as nat),
        forall|p: Seq<usize>| is_index_permutation(p, n as nat) ==> res.deep_view().contains(p),
        res.deep_view().no_duplicates(),
        forall|i: int| 0 <= i < res.len() - 1 ==> lex_before(#[trigger] res.deep_view()[i], res.deep_view()[i + 1]),
{
    (0..n).permutations(n).unique().collect()
}

/// A list reordered by a permutation of its indexes.
pub open spec fn permuted<A>(list: Seq<A>, p: Seq<usize>) -> Seq<A> {
    Seq::new(p.len(), |k: int| list[p[k] as int])
}

/// A list reordered by each of a list of permutations.
pub open spec fn reorderings<A>(list: Seq<A>, perms: Seq<Seq<usize>>) -> Seq<Seq<A>> {
    Seq::new(perms.len(), |i: int| permuted(list, perms[i]))
}

/// The permutation that leaves every index in its place.
pub open spec fn identity_order(n: nat) -> Seq<usize> {
    Seq::new(n, |k: int| k as usize)
}

proof fn lemma_lex_trans(a: Seq<usize>, b: Seq<usize>, c: Seq<usize>)
    requires
        lex_before(a, b),
        lex_before(b, c),
    ensures
        lex_before(a, c),
{
    let k1 = choose|k: int| 0 <= k < a.len() && k < b.len() && a.take(k) == b.take(k) && #[trigger] a[k] < b[k];
    let k2 = choose|k: int| 0 <= k < b.len() && k < c.len() && b.take(k) == c.take(k) && #[trigger] b[k] < c[k];
    let k = if k1 < k2 { k1 } else { k2 };
    assert forall|i: int| 0 <= i < k implies a[i] == c[i] by {
        assert(a.take(k1)[i] == b.take(k1)[i]);
        assert(b.take(k2)[i] == c.take(k2)[i]);
    }
    if k1 < k2 {
        assert(b.take(k2)[k1] == c.take(k2)[k1]);
    } else if k2 < k1 {
        assert(a.take(k1)[k2] == b.take(k1)[k2]);
    }
    assert(a.take(k) =~= c.take(k));
    assert(a[k] < c[k]);
}

proof fn lemma_lex_chain(perms: Seq<Seq<usize>>, j: int)
    requires
        0 < j < perms.len(),
        forall|i: int| 0 <= i < perms.len() - 1 ==> lex_before(#[trigger] perms[i], perms[i + 1]),
    ensures
        lex_before(perms[0], perms[j]),
    decreases j,
{
    if j > 1 {
        lemma_lex_chain(perms, j - 1);
        assert(lex_before(perms[j - 1], perms[j]));
        lemma_lex_trans(perms[0], perms[j - 1], perms[j]);
    } else {
        assert(lex_before(perms[0], perms[1]));
    }
}

proof fn lemma_nothing_before_identity(p: Seq<usize>, n: nat)
    requires
        is_index_permutation(p, n),
        n <= usize::MAX,
    ensures
        !lex_before(p, identity_order(n)),
{
    let id = identity_order(n);
    assert forall|i: int| 0 <= i < n implies #[trigger] id[i] as int == i by {}
    if lex_before(p, id) {
        let k = choose|k: int| 0 <= k < p.len() && k < id.len() && p.take(k) == id.take(k) && #[trigger] p[k] < id[k];
        let v = p[k] as int;
        assert(p.take(k)[v] == id.take(k)[v]);
        assert(p[v] == p[k]);
    }
}

/// Permutations of `0..n` listed once each in lexicographic order start
/// with the identity.
pub proof fn lemma_sorted_orders_start_with_identity(perms: Seq<Seq<usize>>, n: nat)
    requires
        forall|i: int| 0 <= i < perms.len() ==> is_index_permutation(#[trigger] perms[i], n),
        forall|p: Seq<usize>| is_index_permutation(p, n) ==> perms.contains(p),
        forall|i: int| 0 <= i < perms.len() - 1 ==> lex_before(#[trigger] perms[i], perms[i + 1]),
        n <= usize::MAX,
    ensures
        perms.len() > 0,
        perms[0] == identity_order(n),
{
    let id = identity_order(n);
    assert forall|i: int| 0 <= i < n implies #[trigger] id[i] as int == i by {}
    assert forall|i: int, j: int| 0 <= i < j < n implies id[i] != id[j] by {
        assert(id[i] as int == i && id[j] as int == j);
    }
    assert(id.no_duplicates());
    assert(is_index_permutation(id, n));
    let j = choose|j: int| 0 <= j < perms.len() && perms[j] == id;
    if j > 0 {
        lemma_lex_chain(perms, j);
        lemma_nothing_before_identity(perms[0], n);
    }
}

/// Every order of a method's subtasks: the result lists the subtasks
/// reordered by each permutation of their indexes, each permutation once,
/// the permutations in lexicographic order.
pub fn generate_method_subtask_perm(current_subtask_list: &Vec<(MethodSubtask, Vec<Argument>)>) -> (res: Vec<Vec<(MethodSubtask, Vec<Argument>)>>)
    ensures
        res.deep_view() == reorderings(current_subtask_list.deep_view(), subtask_orders(current_subtask_list.len())),
        exists|perms: Seq<Seq<usize>>| {
            &&& perms.no_duplicates()
            &&& forall|i: int| 0 <= i < perms.len() ==> is_index_permutation(#[trigger] perms[i], current_subtask_list.len() as nat)
            &&& forall|p: Seq<usize>| is_index_permutation(p, current_subtask_list.len() as nat) ==> perms.contains(p)
            &&& forall|i: int| 0 <= i < perms.len() - 1 ==> lex_before(#[trigger] perms[i], perms[i + 1])
            &&& res.len() == perms.len()
            &&& forall|i: int| 0 <= i < res.len() ==> (#[trigger] res@[i]).deep_view() == permuted(current_subtask_list.deep_view(), perms[i])
        },
        res.len() > 0,
        res@[0].deep_view() == current_subtask_list.deep_view(),
{
    let perms = index_permutations(current_subtask_list.len());
    let ghost pv = perms.deep_view();
    let mut subtask_permutation_list: Vec<Vec<(MethodSubtask, Vec<Argument>)>> = Vec::new();
    let mut i: usize = 0;
    while i < perms.len()
        invariant
            i <= perms.len(),
            pv == perms.deep_view(),
            forall|j: int| 0 <= j < perms.len() ==> is_index_permutation((#[trigger] perms@[j])@, current_subtask_list.len() as nat),
            subtask_permutation_list@.len() == i,
            forall|j: int| 0 <= j < i ==> (#[trigger] subtask_permutation_list@[j]).deep_view() == permuted(current_subtask_list.deep_view(), pv[j]),
        decreases perms.len() - i,
    {
        let perm = &perms[i];
        assert(pv[i as int] == perm@);
        assert(is_index_permutation(perm@, current_subtask_list.len() as nat));
        let mut new_st_list: Vec<(MethodSubtask, Vec<Argument>)> = Vec::new();
        let mut k: usize = 0;
        while k < perm.len()
            invariant
                k <= perm.len(),
                is_index_permutation(perm@, current_subtask_list.len() as nat),
                new_st_list@.len() == k,
                forall|j: int| 0 <= j < k ==> (#[trigger] new_st_list@[j]).deep_view() == current_subtask_list.deep_view()[perm@[j] as int],
            decreases perm.len() - k,
        {
            let index = perm[k];
            assert(perm@[k as int] < current_subtask_list.len());
            let args = current_subtask_list[index].1.clone();
            assert(args.deep_view() =~= current_subtask_list@[index as int].1.deep_view());
            new_st_list.push((current_subtask_list[index].0.clone(), args));
            k = k + 1;
        }
        assert(new_st_list.deep_view() =~= permuted(current_subtask_list.deep_view(), pv[i as int]));
        subtask_permutation_list.push(new_st_list);
        i = i + 1;
    }
    assert(forall|j: int| 0 <= j < pv.len() ==> pv[j] == (#[trigger] perms@[j])@);
    proof {
        let n = current_subtask_list.len() as nat;
        assert forall|i: int| 0 <= i < pv.len() implies is_index_permutation(#[trigger] pv[i], n) by {
            assert(pv[i] == perms@[i]@);
        }
        lemma_sorted_orders_start_with_identity(pv, n);
        assert(permuted(current_subtask_list.deep_view(), identity_order(n)) =~= current_subtask_list.deep_view());
    }
    assert(subtask_permutation_list.deep_view() =~= reorderings(current_subtask_list.deep_view(), subtask_orders(current_subtask_list.len()))) by {
        assert forall|j: int| 0 <= j < pv.len() implies subtask_permutation_list.deep_view()[j] == reorderings(current_subtask_list.deep_view(), pv)[j] by {
            assert(subtask_permutation_list.deep_view()[j] == subtask_permutation_list@[j].deep_view());
        }
    }
    subtask_permutation_list
}

} // verus!
