//! Queries on domains: which actions serve the goal, which parts of a
//! domain a problem can use, and in which order methods are tried.
use vstd::prelude::*;
use crate::datastructures::domain::{Str, Domain, DomainModel, Action, ActionModel, Method, MethodModel, MethodSubtaskModel,
    MethodSubtask, clone_strings};
use crate::datastructures::problem::{Problem, StateModel};
use crate::datastructures::domain::{Task, TaskModel, ArgumentModel, EffectModel};
use crate::text::contains_string;

verus! {

/// Whether a type list names `t`, as a type or as a supertype.
pub open spec fn types_mention(types: Seq<(Str, Str)>, t: Str) -> bool {
    exists|i: int| 0 <= i < types.len() && ((#[trigger] types[i]).0 == t || types[i].1 == t)
}

/// Whether a type list names the given type, as a type or as a supertype.
pub fn type_contain_param(types: &Vec<(String, String)>, check_type: &String) -> (res: bool)
    ensures
        res == types_mention(types.deep_view(), check_type@),
{
    let ghost tv = types.deep_view();
    let mut i: usize = 0;
    while i < types.len()
        invariant
            i <= types.len(),
            tv == types.deep_view(),
            forall|j: int| 0 <= j < i ==> !((#[trigger] tv[j]).0 == check_type@ || tv[j].1 == check_type@),
        decreases types.len() - i,
    {
        assert(tv[i as int] == types@[i as int].deep_view());
        if types[i].0 == *check_type || types[i].1 == *check_type {
            return true;
        }
        i = i + 1;
    }
    false
}

/// Whether an action has a positive effect on the predicate `p`.
pub open spec fn adds_predicate(a: ActionModel, p: Str) -> bool {
    a.effect is Some && exists|i: int| 0 <= i < a.effect.unwrap().len() && (#[trigger] a.effect.unwrap()[i]).0 && a.effect.unwrap()[i].1 == p
}

/// The names of the actions that add `p`, appended to `found` in the
/// order of the domain's actions, each name once.
pub open spec fn collect_adders(found: Seq<Str>, actions: Seq<ActionModel>, p: Str) -> Seq<Str>
    decreases actions.len(),
{
    if actions.len() == 0 {
        found
    } else {
        let f = collect_adders(found, actions.drop_last(), p);
        let a = actions.last();
        if !f.contains(a.name) && adds_predicate(a, p) { f.push(a.name) } else { f }
    }
}

/// The names of the actions that add some goal predicate, goal by goal, each name once.
pub open spec fn goal_actions(actions: Seq<ActionModel>, goal: StateModel) -> Seq<Str>
    decreases goal.len(),
{
    if goal.len() == 0 {
        Seq::empty()
    } else {
        collect_adders(goal_actions(actions, goal.drop_last()), actions, goal.last().0)
    }
}

fn action_adds(action: &Action, p: &String) -> (res: bool)
    ensures
        res == adds_predicate(action@, p@),
{
    match &action.effect {
        Some(effects) => {
            let ghost ev = effects.deep_view();
            let mut i: usize = 0;
            while i < effects.len()
                invariant
                    i <= effects.len(),
                    ev == effects.deep_view(),
                    action@.effect == Some(ev),
                    forall|j: int| 0 <= j < i ==> !((#[trigger] ev[j]).0 && ev[j].1 == p@),
                decreases effects.len() - i,
            {
                assert(ev[i as int] == effects@[i as int].deep_view());
                if effects[i].0 && effects[i].1 == *p {
                    assert(action@.effect.unwrap()[i as int] == ev[i as int]);
                    return true;
                }
                i = i + 1;
            }
            false
        },
        None => false,
    }
}

fn collect_goal_actions(domain: &Domain, goal: &Vec<(String, Vec<String>)>) -> (res: Vec<String>)
    ensures
        res.deep_view() == goal_actions(domain@.actions, goal.deep_view()),
{
    let ghost gv = goal.deep_view();
    let ghost av = domain@.actions;
    let mut goal_action_list: Vec<String> = Vec::new();
    let mut g: usize = 0;
    while g < goal.len()
        invariant
            g <= goal.len(),
            gv == goal.deep_view(),
            av == domain@.actions,
            goal_action_list.deep_view() == goal_actions(av, gv.take(g as int)),
        decreases goal.len() - g,
    {
        let predicate = &goal[g];
        assert(gv[g as int] == predicate.deep_view());
        assert(gv.take(g + 1).drop_last() =~= gv.take(g as int));
        let ghost base = goal_action_list.deep_view();
        let mut a: usize = 0;
        while a < domain.actions.len()
            invariant
                g < goal.len(),
                a <= domain.actions.len(),
                av == domain@.actions,
                goal_action_list.deep_view() == collect_adders(base, av.take(a as int), predicate.0@),
            decreases domain.actions.len() - a,
        {
            let action = &domain.actions[a];
            assert(av[a as int] == action@);
            assert(av.take(a + 1).drop_last() =~= av.take(a as int));
            let ghost before = goal_action_list.deep_view();
            if !contains_string(&goal_action_list, &action.name) && action_adds(action, &predicate.0) {
                goal_action_list.push(action.name.clone());
                assert(goal_action_list.deep_view() =~= before.push(action.name@));
            }
            a = a + 1;
        }
        assert(av.take(a as int) =~= av);
        g = g + 1;
    }
    assert(gv.take(g as int) =~= gv);
    goal_action_list
}

/// Decides which actions have a positive impact on the goal state.
pub fn goal_oriented_action_finder(domain: &Domain, goal: Vec<(String, Vec<String>)>) -> (res: Vec<String>)
    ensures
        res.deep_view() == goal_actions(domain@.actions, goal.deep_view()),
{
    collect_goal_actions(domain, &goal)
}

/// Whether a method has an action among `names` as a subtask.
pub open spec fn method_calls_any(m: MethodModel, names: Seq<Str>) -> bool {
    exists|k: int| 0 <= k < m.subtasks.len() && match #[trigger] m.subtasks[k].0 {
        MethodSubtaskModel::Action(a) => names.contains(a.name),
        MethodSubtaskModel::Task(_) => false,
    }
}

/// The names of the methods of a method list that call one of `names`, appended to `found`.
pub open spec fn methods_calling(found: Seq<Str>, ms: Seq<MethodModel>, names: Seq<Str>) -> Seq<Str>
    decreases ms.len(),
{
    if ms.len() == 0 {
        found
    } else {
        let f = methods_calling(found, ms.drop_last(), names);
        if method_calls_any(ms.last(), names) { f.push(ms.last().name) } else { f }
    }
}

/// The names of the methods of a method table that call one of `names`.
pub open spec fn table_methods_calling(table: Seq<(Str, Seq<MethodModel>)>, names: Seq<Str>) -> Seq<Str>
    decreases table.len(),
{
    if table.len() == 0 {
        Seq::empty()
    } else {
        methods_calling(table_methods_calling(table.drop_last(), names), table.last().1, names)
    }
}

fn calls_any(method: &Method, names: &Vec<String>) -> (res: bool)
    ensures
        res == method_calls_any(method@, names.deep_view()),
{
    let mut k: usize = 0;
    while k < method.subtasks.len()
        invariant
            k <= method.subtasks.len(),
            forall|c: int| 0 <= c < k ==> match #[trigger] method@.subtasks[c].0 {
                MethodSubtaskModel::Action(a) => !names.deep_view().contains(a.name),
                MethodSubtaskModel::Task(_) => true,
            },
        decreases method.subtasks.len() - k,
    {
        match &method.subtasks[k].0 {
            MethodSubtask::Action(action) => {
                if contains_string(names, &action.name) {
                    assert(method@.subtasks[k as int].0 == MethodSubtaskModel::Action(action@));
                    return true;
                }
            },
            MethodSubtask::Task(_) => {},
        }
        k = k + 1;
    }
    false
}

/// Finds the methods that call an action with a positive impact on the goal.
pub fn goal_oriented_finder(domain: &Domain, goal: Vec<(String, Vec<String>)>) -> (res: Vec<String>)
    ensures
        res.deep_view() == table_methods_calling(domain@.methods, goal_actions(domain@.actions, goal.deep_view())),
{
    let action_goal_list = collect_goal_actions(domain, &goal);
    let ghost names = action_goal_list.deep_view();
    let ghost table = domain@.methods;
    let mut method_goal_list: Vec<String> = Vec::new();
    let mut i: usize = 0;
    while i < domain.methods.len()
        invariant
            i <= domain.methods.len(),
            table == domain@.methods,
            names == action_goal_list.deep_view(),
            method_goal_list.deep_view() == table_methods_calling(table.take(i as int), names),
        decreases domain.methods.len() - i,
    {
        let method_list = &domain.methods[i].1;
        assert(table[i as int].1 == method_list.deep_view());
        assert(table.take(i + 1).drop_last() =~= table.take(i as int));
        let ghost base = method_goal_list.deep_view();
        let mut j: usize = 0;
        while j < method_list.len()
            invariant
                i < domain.methods.len(),
                j <= method_list.len(),
                names == action_goal_list.deep_view(),
                method_goal_list.deep_view() == methods_calling(base, method_list.deep_view().take(j as int), names),
            decreases method_list.len() - j,
        {
            let method = &method_list[j];
            assert(method_list.deep_view()[j as int] == method@);
            assert(method_list.deep_view().take(j + 1).drop_last() =~= method_list.deep_view().take(j as int));
            let ghost before = method_goal_list.deep_view();
            if calls_any(method, &action_goal_list) {
                method_goal_list.push(method.name.clone());
                assert(method_goal_list.deep_view() =~= before.push(method.name@));
            }
            j = j + 1;
        }
        assert(method_list.deep_view().take(j as int) =~= method_list.deep_view());
        i = i + 1;
    }
    assert(table.take(i as int) =~= table);
    method_goal_list
}

// ------------------------------------------------------------------------
// Reducing a domain to what a problem can use.
// ------------------------------------------------------------------------

/// The domain's types that some object of the problem belongs to.
pub open spec fn used_types(types: Seq<(Str, Str)>, objects: Seq<(Str, Str, Seq<Str>)>) -> Seq<(Str, Str)>
    decreases types.len(),
{
    if types.len() == 0 {
        Seq::empty()
    } else {
        let rest = used_types(types.drop_last(), objects);
        if exists|o: int| 0 <= o < objects.len() && (#[trigger] objects[o]).2.contains(types.last().0) { rest.push(types.last()) } else { rest }
    }
}

/// Whether every parameter's type is named by the type list.
pub open spec fn params_typed(params: Seq<ArgumentModel>, types: Seq<(Str, Str)>) -> bool {
    forall|i: int| 0 <= i < params.len() ==> types_mention(types, (#[trigger] params[i]).object_type)
}

pub open spec fn typed_actions(actions: Seq<ActionModel>, types: Seq<(Str, Str)>) -> Seq<ActionModel>
    decreases actions.len(),
{
    if actions.len() == 0 {
        Seq::empty()
    } else {
        let rest = typed_actions(actions.drop_last(), types);
        if params_typed(actions.last().parameters, types) { rest.push(actions.last()) } else { rest }
    }
}

pub open spec fn typed_methods(ms: Seq<MethodModel>, types: Seq<(Str, Str)>) -> Seq<MethodModel>
    decreases ms.len(),
{
    if ms.len() == 0 {
        Seq::empty()
    } else {
        let rest = typed_methods(ms.drop_last(), types);
        if params_typed(ms.last().parameters, types) { rest.push(ms.last()) } else { rest }
    }
}

/// The method table with only the methods whose parameter types are named,
/// leaving out the tasks that keep no method.
pub open spec fn typed_table(table: Seq<(Str, Seq<MethodModel>)>, types: Seq<(Str, Str)>) -> Seq<(Str, Seq<MethodModel>)>
    decreases table.len(),
{
    if table.len() == 0 {
        Seq::empty()
    } else {
        let rest = typed_table(table.drop_last(), types);
        let ms = typed_methods(table.last().1, types);
        if ms.len() > 0 { rest.push((table.last().0, ms)) } else { rest }
    }
}

pub open spec fn typed_tasks(tasks: Seq<TaskModel>, types: Seq<(Str, Str)>) -> Seq<TaskModel>
    decreases tasks.len(),
{
    if tasks.len() == 0 {
        Seq::empty()
    } else {
        let rest = typed_tasks(tasks.drop_last(), types);
        if params_typed(tasks.last().parameters, types) { rest.push(tasks.last()) } else { rest }
    }
}

/// The domain restricted to the types of the problem's objects.
pub open spec fn type_reduced(d: DomainModel, objects: Seq<(Str, Str, Seq<Str>)>) -> DomainModel {
    let types = used_types(d.types, objects);
    DomainModel {
        types,
        actions: typed_actions(d.actions, types),
        methods: typed_table(d.methods, types),
        tasks: typed_tasks(d.tasks, types),
        ..d
    }
}

/// Whether the method table has an entry for `key`.
pub open spec fn has_key(table: Seq<(Str, Seq<MethodModel>)>, key: Str) -> bool {
    exists|i: int| 0 <= i < table.len() && (#[trigger] table[i]).0 == key
}

/// Every method of the table is filed under a task that the table has.
pub open spec fn table_keyed(table: Seq<(Str, Seq<MethodModel>)>) -> bool {
    forall|i: int, j: int| 0 <= i < table.len() && 0 <= j < table[i].1.len() ==> has_key(table, (#[trigger] table[i].1[j]).task.0)
}

fn params_have_types(params: &Vec<crate::datastructures::domain::Argument>, types: &Vec<(String, String)>) -> (res: bool)
    ensures
        res == params_typed(params.deep_view(), types.deep_view()),
{
    let mut i: usize = 0;
    while i < params.len()
        invariant
            i <= params.len(),
            forall|j: int| 0 <= j < i ==> types_mention(types.deep_view(), (#[trigger] params.deep_view()[j]).object_type),
        decreases params.len() - i,
    {
        assert(params.deep_view()[i as int] == params@[i as int]@);
        if !type_contain_param(types, &params[i].object_type) {
            return false;
        }
        i = i + 1;
    }
    true
}

/// Every method of the table is filed under its own task.
pub open spec fn table_filed(table: Seq<(Str, Seq<MethodModel>)>) -> bool {
    forall|i: int, j: int| 0 <= i < table.len() && 0 <= j < table[i].1.len() ==> (#[trigger] table[i].1[j]).task.0 == table[i].0
}

proof fn lemma_typed_methods_from(ms: Seq<MethodModel>, types: Seq<(Str, Str)>, k: int)
    requires
        0 <= k < typed_methods(ms, types).len(),
    ensures
        ms.contains(typed_methods(ms, types)[k]),
    decreases ms.len(),
{
    if ms.len() > 0 {
        let rest = typed_methods(ms.drop_last(), types);
        if k < rest.len() {
            lemma_typed_methods_from(ms.drop_last(), types, k);
            let j = choose|j: int| 0 <= j < ms.drop_last().len() && ms.drop_last()[j] == rest[k];
            assert(ms[j] == rest[k]);
        } else {
            assert(ms[ms.len() - 1] == typed_methods(ms, types)[k]);
        }
    }
}

/// Trimming by types keeps every method filed under its own task.
pub proof fn lemma_typed_table_filed(table: Seq<(Str, Seq<MethodModel>)>, types: Seq<(Str, Str)>)
    requires
        table_filed(table),
    ensures
        table_filed(typed_table(table, types)),
    decreases table.len(),
{
    if table.len() > 0 {
        let prev = table.drop_last();
        assert(table_filed(prev)) by {
            assert forall|i: int, j: int| 0 <= i < prev.len() && 0 <= j < prev[i].1.len() implies (#[trigger] prev[i].1[j]).task.0 == prev[i].0 by {
                assert(prev[i] == table[i]);
            }
        }
        lemma_typed_table_filed(prev, types);
        let rest = typed_table(prev, types);
        let ms = typed_methods(table.last().1, types);
        let r = typed_table(table, types);
        assert forall|i: int, j: int| 0 <= i < r.len() && 0 <= j < r[i].1.len() implies (#[trigger] r[i].1[j]).task.0 == r[i].0 by {
            if i < rest.len() {
                assert(r[i] == rest[i]);
            } else {
                assert(r[i] == (table.last().0, ms));
                lemma_typed_methods_from(table.last().1, types, j);
                let q = choose|q: int| 0 <= q < table.last().1.len() && table.last().1[q] == ms[j];
                assert(table[table.len() - 1].1[q].task.0 == table[table.len() - 1].0);
            }
        }
    }
}

/// A table filed by task has a key for every method's task.
pub proof fn lemma_filed_keyed(table: Seq<(Str, Seq<MethodModel>)>)
    requires
        table_filed(table),
    ensures
        table_keyed(table),
{
    assert forall|i: int, j: int| 0 <= i < table.len() && 0 <= j < table[i].1.len() implies has_key(table, (#[trigger] table[i].1[j]).task.0) by {
        assert(table[i].0 == table[i].1[j].task.0);
    }
}

/// The domain a search runs in: restricted to the types of the problem's
/// objects, and, when the problem has a goal, without the actions whose
/// effects nothing needs (see `effect_trimmed`).
pub open spec fn reduced(d: DomainModel, objects: Seq<(Str, Str, Seq<Str>)>, goal: Option<StateModel>) -> DomainModel {
    match goal {
        Some(g) => effect_trimmed(type_reduced(d, objects), g),
        None => type_reduced(d, objects),
    }
}

/// Removes actions, methods and tasks from the domain based on the types of
/// the problem's objects; when the problem has a goal, then also trims the
/// actions whose effects nothing needs (see `effect_trim_domain`).
pub fn reduce_domain(domain: &Domain, problem: &Problem) -> (res: Domain)
    requires
        problem@.goal is Some ==> table_filed(domain@.methods),
    ensures
        res@ == reduced(domain@, problem@.objects, problem@.goal),
{
    let ghost d = domain@;
    let ghost objects = problem@.objects;
    let mut new_types: Vec<(String, String)> = Vec::new();
    let mut t: usize = 0;
    while t < domain.types.len()
        invariant
            t <= domain.types.len(),
            d == domain@,
            objects == problem@.objects,
            new_types.deep_view() == used_types(d.types.take(t as int), objects),
        decreases domain.types.len() - t,
    {
        let type_obj = &domain.types[t];
        assert(d.types[t as int] == type_obj.deep_view());
        assert(d.types.take(t + 1).drop_last() =~= d.types.take(t as int));
        let mut used = false;
        let mut o: usize = 0;
        while o < problem.objects.len() && !used
            invariant
                t < domain.types.len(),
                o <= problem.objects.len(),
                objects == problem@.objects,
                used ==> exists|k: int| 0 <= k < objects.len() && (#[trigger] objects[k]).2.contains(type_obj.0@),
                !used ==> forall|k: int| 0 <= k < o ==> !(#[trigger] objects[k]).2.contains(type_obj.0@),
            decreases problem.objects.len() - o, (if used { 0int } else { 1int }),
        {
            assert(objects[o as int] == problem.objects@[o as int].deep_view());
            if contains_string(&problem.objects[o].2, &type_obj.0) {
                used = true;
            } else {
                o = o + 1;
            }
        }
        let ghost before = new_types.deep_view();
        if used {
            new_types.push((type_obj.0.clone(), type_obj.1.clone()));
            assert(new_types.deep_view() =~= before.push(d.types[t as int]));
        }
        t = t + 1;
    }
    assert(d.types.take(t as int) =~= d.types);
    let ghost types = new_types.deep_view();

    let mut new_actions: Vec<Action> = Vec::new();
    let mut a: usize = 0;
    while a < domain.actions.len()
        invariant
            a <= domain.actions.len(),
            d == domain@,
            types == new_types.deep_view(),
            new_actions.deep_view() == typed_actions(d.actions.take(a as int), types),
        decreases domain.actions.len() - a,
    {
        assert(d.actions[a as int] == domain.actions@[a as int]@);
        assert(d.actions.take(a + 1).drop_last() =~= d.actions.take(a as int));
        let ghost before = new_actions.deep_view();
        if params_have_types(&domain.actions[a].parameters, &new_types) {
            new_actions.push(domain.actions[a].clone());
            assert(new_actions.deep_view() =~= before.push(d.actions[a as int]));
        }
        a = a + 1;
    }
    assert(d.actions.take(a as int) =~= d.actions);

    let mut new_methods: Vec<(String, Vec<Method>)> = Vec::new();
    let mut i: usize = 0;
    while i < domain.methods.len()
        invariant
            i <= domain.methods.len(),
            d == domain@,
            types == new_types.deep_view(),
            new_methods.deep_view() == typed_table(d.methods.take(i as int), types),
        decreases domain.methods.len() - i,
    {
        let method_list = &domain.methods[i];
        assert(d.methods[i as int] == method_list.deep_view());
        assert(d.methods.take(i + 1).drop_last() =~= d.methods.take(i as int));
        let ghost mv = method_list.1.deep_view();
        let mut new_method_list: Vec<Method> = Vec::new();
        let mut j: usize = 0;
        while j < method_list.1.len()
            invariant
                i < domain.methods.len(),
                j <= method_list.1.len(),
                mv == method_list.1.deep_view(),
                types == new_types.deep_view(),
                new_method_list.deep_view() == typed_methods(mv.take(j as int), types),
            decreases method_list.1.len() - j,
        {
            assert(mv[j as int] == method_list.1@[j as int]@);
            assert(mv.take(j + 1).drop_last() =~= mv.take(j as int));
            let ghost before = new_method_list.deep_view();
            if params_have_types(&method_list.1[j].parameters, &new_types) {
                new_method_list.push(method_list.1[j].clone());
                assert(new_method_list.deep_view() =~= before.push(mv[j as int]));
            }
            j = j + 1;
        }
        assert(mv.take(j as int) =~= mv);
        let ghost before = new_methods.deep_view();
        if new_method_list.len() > 0 {
            assert(new_method_list.deep_view().len() > 0);
            let ghost nml = new_method_list.deep_view();
            new_methods.push((method_list.0.clone(), new_method_list));
            assert(new_methods.deep_view() =~= before.push((d.methods[i as int].0, nml)));
        } else {
            assert(new_method_list.deep_view().len() == 0);
        }
        i = i + 1;
    }
    assert(d.methods.take(i as int) =~= d.methods);

    let mut new_tasks: Vec<Task> = Vec::new();
    let mut k: usize = 0;
    while k < domain.tasks.len()
        invariant
            k <= domain.tasks.len(),
            d == domain@,
            types == new_types.deep_view(),
            new_tasks.deep_view() == typed_tasks(d.tasks.take(k as int), types),
        decreases domain.tasks.len() - k,
    {
        assert(d.tasks[k as int] == domain.tasks@[k as int]@);
        assert(d.tasks.take(k + 1).drop_last() =~= d.tasks.take(k as int));
        let ghost before = new_tasks.deep_view();
        if params_have_types(&domain.tasks[k].parameters, &new_types) {
            new_tasks.push(domain.tasks[k].clone());
            assert(new_tasks.deep_view() =~= before.push(d.tasks[k as int]));
        }
        k = k + 1;
    }
    assert(d.tasks.take(k as int) =~= d.tasks);

    let mut new_domain = domain.clone();
    new_domain.methods = new_methods;
    new_domain.actions = new_actions;
    new_domain.types = new_types;
    new_domain.tasks = new_tasks;
    assert(new_domain@ == type_reduced(d, problem@.objects));
    if problem.goal.is_some() {
        proof {
            lemma_typed_table_filed(d.methods, types);
            lemma_filed_keyed(new_domain@.methods);
        }
        return effect_trim_domain(&new_domain, problem);
    }
    new_domain
}

// ------------------------------------------------------------------------
// Trimming actions whose effects nothing needs.
// ------------------------------------------------------------------------

/// Whether a goal fact, a method precondition (of kind 1 or 2) or an action
/// precondition mentions the predicate `p`.
pub open spec fn predicate_needed(d: DomainModel, goal: StateModel, p: Str) -> bool {
    ||| exists|g: int| 0 <= g < goal.len() && (#[trigger] goal[g]).0 == p
    ||| exists|i: int, j: int, k: int| 0 <= i < d.methods.len() && 0 <= j < d.methods[i].1.len()
            && (#[trigger] d.methods[i].1[j]).precondition is Some && 0 <= k < d.methods[i].1[j].precondition.unwrap().len()
            && ((#[trigger] d.methods[i].1[j].precondition.unwrap()[k]).0 == 1 || d.methods[i].1[j].precondition.unwrap()[k].0 == 2)
            && d.methods[i].1[j].precondition.unwrap()[k].1 == p
    ||| exists|i: int, k: int| 0 <= i < d.actions.len() && (#[trigger] d.actions[i]).precondition is Some
            && 0 <= k < d.actions[i].precondition.unwrap().len() && (#[trigger] d.actions[i].precondition.unwrap()[k]).1 == p
}

/// Whether a method's only subtask is the action named `a`.
pub open spec fn sole_call(m: MethodModel, a: Str) -> bool {
    m.subtasks.len() == 1 && match m.subtasks[0].0 {
        MethodSubtaskModel::Action(sa) => sa.name == a,
        MethodSubtaskModel::Task(_) => false,
    }
}

/// Scans a method list with its full length `n`.
pub open spec fn list_trims_full(ms: Seq<MethodModel>, n: int, a: Str, found: Seq<MethodModel>) -> Option<(Seq<MethodModel>, int)>
    decreases ms.len(),
{
    if ms.len() == 0 {
        Some((found, 0))
    } else {
        match list_trims_full(ms.drop_last(), n, a, found) {
            None => None,
            Some((f, count)) => {
                if sole_call(ms.last(), a) {
                    if n - count <= 1 { None } else { Some((f.push(ms.last()), count + 1)) }
                } else {
                    Some((f, count))
                }
            },
        }
    }
}

/// The methods to trim with the action `a`, over the whole table; `None`
/// when one of them is the last method left for its task.
pub open spec fn table_trims(table: Seq<(Str, Seq<MethodModel>)>, a: Str) -> Option<Seq<MethodModel>>
    decreases table.len(),
{
    if table.len() == 0 {
        Some(Seq::empty())
    } else {
        match table_trims(table.drop_last(), a) {
            None => None,
            Some(f) => match list_trims_full(table.last().1, table.last().1.len() as int, a, f) {
                None => None,
                Some((f2, _)) => Some(f2),
            },
        }
    }
}

/// The index of the first action named `a`, or the number of actions.
pub open spec fn action_index(actions: Seq<ActionModel>, a: Str) -> int
    decreases actions.len(),
{
    if actions.len() == 0 {
        0
    } else {
        let i = action_index(actions.drop_last(), a);
        if i < actions.len() - 1 { i } else if actions.last().name == a { actions.len() - 1 } else { actions.len() as int }
    }
}

/// The index of the first entry of the table with key `k`.
pub open spec fn key_index(table: Seq<(Str, Seq<MethodModel>)>, k: Str) -> int
    decreases table.len(),
{
    if table.len() == 0 {
        0
    } else {
        let i = key_index(table.drop_last(), k);
        if i < table.len() - 1 { i } else if table.last().0 == k { table.len() - 1 } else { table.len() as int }
    }
}

/// The methods of a list not named `name`.
pub open spec fn methods_not_named(ms: Seq<MethodModel>, name: Str) -> Seq<MethodModel>
    decreases ms.len(),
{
    if ms.len() == 0 {
        Seq::empty()
    } else {
        let rest = methods_not_named(ms.drop_last(), name);
        if ms.last().name == name { rest } else { rest.push(ms.last()) }
    }
}

/// Files, for each trimmed method, the original list of its task without it.
pub open spec fn apply_method_trims(table: Seq<(Str, Seq<MethodModel>)>, orig: Seq<(Str, Seq<MethodModel>)>, trims: Seq<MethodModel>) -> Seq<(Str, Seq<MethodModel>)>
    decreases trims.len(),
{
    if trims.len() == 0 {
        table
    } else {
        let t = apply_method_trims(table, orig, trims.drop_last());
        let tm = trims.last();
        let key = tm.task.0;
        let new_list = methods_not_named(orig[key_index(orig, key)].1, tm.name);
        t.update(key_index(t, key), (key, new_list))
    }
}

/// The domain after trimming the action `a` and the given methods.
pub open spec fn trim_once(nd: DomainModel, d: DomainModel, a: Str, trims: Seq<MethodModel>) -> DomainModel {
    let i = action_index(nd.actions, a);
    DomainModel {
        actions: if i < nd.actions.len() { nd.actions.remove(i) } else { nd.actions },
        methods: apply_method_trims(nd.methods, d.methods, trims),
        ..nd
    }
}

/// The effects of one action, in order: trimming goes on until an effect is
/// needed or the methods cannot be trimmed; the flag tells that it stopped.
pub open spec fn effects_trim(nd: DomainModel, d: DomainModel, goal: StateModel, a: Str, es: Seq<EffectModel>) -> (DomainModel, bool)
    decreases es.len(),
{
    if es.len() == 0 {
        (nd, false)
    } else {
        let (n2, stopped) = effects_trim(nd, d, goal, a, es.drop_last());
        if stopped {
            (n2, true)
        } else if predicate_needed(d, goal, es.last().1) {
            (n2, true)
        } else {
            match table_trims(d.methods, a) {
                None => (n2, true),
                Some(trims) => if trims.len() == 0 { (n2, true) } else { (trim_once(n2, d, a, trims), false) },
            }
        }
    }
}

/// The trimmed domain after the first `n` actions.
pub open spec fn actions_trim(d: DomainModel, goal: StateModel, acts: Seq<ActionModel>) -> DomainModel
    decreases acts.len(),
{
    if acts.len() == 0 {
        d
    } else {
        let nd = actions_trim(d, goal, acts.drop_last());
        match acts.last().effect {
            Some(es) => effects_trim(nd, d, goal, acts.last().name, es).0,
            None => nd,
        }
    }
}

/// The domain without the actions whose effects no goal, no method
/// precondition and no action precondition needs, together with the methods
/// that only call them (unless such a method is the last one for its task).
pub open spec fn effect_trimmed(d: DomainModel, goal: StateModel) -> DomainModel {
    actions_trim(d, goal, d.actions)
}

fn goal_mentions(goal: &Vec<(String, Vec<String>)>, p: &String) -> (res: bool)
    ensures
        res == exists|g: int| 0 <= g < goal.deep_view().len() && (#[trigger] goal.deep_view()[g]).0 == p@,
{
    let mut g: usize = 0;
    while g < goal.len()
        invariant
            g <= goal.len(),
            forall|k: int| 0 <= k < g ==> (#[trigger] goal.deep_view()[k]).0 != p@,
        decreases goal.len() - g,
    {
        assert(goal.deep_view()[g as int] == goal@[g as int].deep_view());
        if goal[g].0 == *p {
            return true;
        }
        g = g + 1;
    }
    false
}

fn method_precons_mention(domain: &Domain, p: &String) -> (res: bool)
    ensures
        res == exists|i: int, j: int, k: int| 0 <= i < domain@.methods.len() && 0 <= j < domain@.methods[i].1.len()
            && (#[trigger] domain@.methods[i].1[j]).precondition is Some && 0 <= k < domain@.methods[i].1[j].precondition.unwrap().len()
            && ((#[trigger] domain@.methods[i].1[j].precondition.unwrap()[k]).0 == 1 || domain@.methods[i].1[j].precondition.unwrap()[k].0 == 2)
            && domain@.methods[i].1[j].precondition.unwrap()[k].1 == p@,
{
    let ghost t = domain@.methods;
    let mut i: usize = 0;
    while i < domain.methods.len()
        invariant
            i <= domain.methods.len(),
            t == domain@.methods,
            forall|a: int, j: int, k: int| 0 <= a < i && 0 <= j < t[a].1.len()
                && (#[trigger] t[a].1[j]).precondition is Some && 0 <= k < t[a].1[j].precondition.unwrap().len()
                ==> !(((#[trigger] t[a].1[j].precondition.unwrap()[k]).0 == 1 || t[a].1[j].precondition.unwrap()[k].0 == 2)
                    && t[a].1[j].precondition.unwrap()[k].1 == p@),
        decreases domain.methods.len() - i,
    {
        let ms = &domain.methods[i].1;
        assert(t[i as int].1 == ms.deep_view());
        let mut j: usize = 0;
        while j < ms.len()
            invariant
                i < domain.methods.len(),
                j <= ms.len(),
                t == domain@.methods,
                t[i as int].1 == ms.deep_view(),
                forall|a: int, jj: int, k: int| 0 <= a < i && 0 <= jj < t[a].1.len()
                    && (#[trigger] t[a].1[jj]).precondition is Some && 0 <= k < t[a].1[jj].precondition.unwrap().len()
                    ==> !(((#[trigger] t[a].1[jj].precondition.unwrap()[k]).0 == 1 || t[a].1[jj].precondition.unwrap()[k].0 == 2)
                        && t[a].1[jj].precondition.unwrap()[k].1 == p@),
                forall|jj: int, k: int| 0 <= jj < j
                    && (#[trigger] t[i as int].1[jj]).precondition is Some && 0 <= k < t[i as int].1[jj].precondition.unwrap().len()
                    ==> !(((#[trigger] t[i as int].1[jj].precondition.unwrap()[k]).0 == 1 || t[i as int].1[jj].precondition.unwrap()[k].0 == 2)
                        && t[i as int].1[jj].precondition.unwrap()[k].1 == p@),
            decreases ms.len() - j,
        {
            let m = &ms[j];
            assert(t[i as int].1[j as int] == m@);
            if let Some(precons) = &m.precondition {
                let ghost pv = precons.deep_view();
                assert(m@.precondition == Some(pv));
                let mut k: usize = 0;
                while k < precons.len()
                    invariant
                        k <= precons.len(),
                        pv == precons.deep_view(),
                        forall|c: int| 0 <= c < k ==> !(((#[trigger] pv[c]).0 == 1 || pv[c].0 == 2) && pv[c].1 == p@),
                    decreases precons.len() - k,
                {
                    assert(pv[k as int] == precons@[k as int].deep_view());
                    if (precons[k].0 == 1 || precons[k].0 == 2) && precons[k].1 == *p {
                        assert(t[i as int].1[j as int].precondition.unwrap()[k as int] == pv[k as int]);
                        return true;
                    }
                    k = k + 1;
                }
            }
            j = j + 1;
        }
        i = i + 1;
    }
    false
}

fn action_precons_mention(domain: &Domain, p: &String) -> (res: bool)
    ensures
        res == exists|i: int, k: int| 0 <= i < domain@.actions.len() && (#[trigger] domain@.actions[i]).precondition is Some
            && 0 <= k < domain@.actions[i].precondition.unwrap().len() && (#[trigger] domain@.actions[i].precondition.unwrap()[k]).1 == p@,
{
    let ghost acts = domain@.actions;
    let mut i: usize = 0;
    while i < domain.actions.len()
        invariant
            i <= domain.actions.len(),
            acts == domain@.actions,
            forall|a: int, k: int| 0 <= a < i && (#[trigger] acts[a]).precondition is Some
                && 0 <= k < acts[a].precondition.unwrap().len() ==> (#[trigger] acts[a].precondition.unwrap()[k]).1 != p@,
        decreases domain.actions.len() - i,
    {
        let action = &domain.actions[i];
        assert(acts[i as int] == action@);
        if let Some(precons) = &action.precondition {
            let ghost pv = precons.deep_view();
            let mut k: usize = 0;
            while k < precons.len()
                invariant
                    k <= precons.len(),
                    pv == precons.deep_view(),
                    acts[i as int].precondition == Some(pv),
                    forall|c: int| 0 <= c < k ==> (#[trigger] pv[c]).1 != p@,
                decreases precons.len() - k,
            {
                assert(pv[k as int] == precons@[k as int].deep_view());
                if precons[k].1 == *p {
                    assert(acts[i as int].precondition.unwrap()[k as int] == pv[k as int]);
                    return true;
                }
                k = k + 1;
            }
        }
        i = i + 1;
    }
    false
}

fn is_sole_call(m: &Method, a: &String) -> (res: bool)
    ensures
        res == sole_call(m@, a@),
{
    if m.subtasks.len() == 1 {
        assert(m@.subtasks.len() == 1);
        match &m.subtasks[0].0 {
            MethodSubtask::Action(sa) => {
                assert(m@.subtasks[0].0 == MethodSubtaskModel::Action(sa@));
                sa.name == *a
            },
            MethodSubtask::Task(t) => {
                assert(m@.subtasks[0].0 == MethodSubtaskModel::Task(t@));
                false
            },
        }
    } else {
        assert(m@.subtasks.len() != 1);
        false
    }
}

fn trims_for(domain: &Domain, a: &String) -> (res: Option<Vec<Method>>)
    ensures
        match table_trims(domain@.methods, a@) {
            None => res is None,
            Some(f) => res is Some && res.unwrap().deep_view() == f,
        },
{
    let ghost t = domain@.methods;
    let mut trim_method_list: Vec<Method> = Vec::new();
    let mut i: usize = 0;
    while i < domain.methods.len()
        invariant
            i <= domain.methods.len(),
            t == domain@.methods,
            table_trims(t.take(i as int), a@) == Some(trim_method_list.deep_view()),
        decreases domain.methods.len() - i,
    {
        let ms = &domain.methods[i].1;
        assert(t[i as int].1 == ms.deep_view());
        assert(t.take(i + 1).drop_last() =~= t.take(i as int));
        let ghost mv = ms.deep_view();
        let ghost base = trim_method_list.deep_view();
        let mut methods_calling_action: usize = 0;
        let mut j: usize = 0;
        while j < ms.len()
            invariant
                i < domain.methods.len(),
                j <= ms.len(),
                mv == ms.deep_view(),
                methods_calling_action <= j,
                list_trims_full(mv.take(j as int), mv.len() as int, a@, base) == Some((trim_method_list.deep_view(), methods_calling_action as int)),
            decreases ms.len() - j,
        {
            let m = &ms[j];
            assert(mv[j as int] == m@);
            assert(mv.take(j + 1).drop_last() =~= mv.take(j as int));
            if is_sole_call(m, a) {
                if ms.len() - methods_calling_action <= 1 {
                    assert(list_trims_full(mv.take(j + 1), mv.len() as int, a@, base) is None);
                    proof { lemma_list_trims_none(mv, mv.len() as int, a@, base, j + 1); }
                    assert(mv.take(mv.len() as int) =~= mv);
                    proof { lemma_table_trims_none(t, a@, i as int); }
                    return None;
                }
                let ghost before = trim_method_list.deep_view();
                methods_calling_action = methods_calling_action + 1;
                trim_method_list.push(m.clone());
                assert(trim_method_list.deep_view() =~= before.push(m@));
            }
            j = j + 1;
        }
        assert(mv.take(j as int) =~= mv);
        i = i + 1;
    }
    assert(t.take(i as int) =~= t);
    Some(trim_method_list)
}

proof fn lemma_list_trims_none(ms: Seq<MethodModel>, n: int, a: Str, found: Seq<MethodModel>, j: int)
    requires
        0 <= j <= ms.len(),
        list_trims_full(ms.take(j), n, a, found) is None,
    ensures
        list_trims_full(ms, n, a, found) is None,
    decreases ms.len() - j,
{
    if j < ms.len() {
        assert(ms.take(j + 1).drop_last() =~= ms.take(j));
        lemma_list_trims_none(ms, n, a, found, j + 1);
    } else {
        assert(ms.take(j) =~= ms);
    }
}

proof fn lemma_table_trims_none(t: Seq<(Str, Seq<MethodModel>)>, a: Str, i: int)
    requires
        0 <= i < t.len(),
        table_trims(t.take(i), a) is Some,
        list_trims_full(t[i].1, t[i].1.len() as int, a, table_trims(t.take(i), a).unwrap()) is None,
    ensures
        table_trims(t, a) is None,
    decreases t.len() - i,
{
    assert(t.take(i + 1).drop_last() =~= t.take(i));
    assert(table_trims(t.take(i + 1), a) is None);
    lemma_table_trims_none_from(t, a, i + 1);
}

proof fn lemma_table_trims_none_from(t: Seq<(Str, Seq<MethodModel>)>, a: Str, i: int)
    requires
        0 <= i <= t.len(),
        table_trims(t.take(i), a) is None,
    ensures
        table_trims(t, a) is None,
    decreases t.len() - i,
{
    if i < t.len() {
        assert(t.take(i + 1).drop_last() =~= t.take(i));
        lemma_table_trims_none_from(t, a, i + 1);
    } else {
        assert(t.take(i) =~= t);
    }
}

fn find_key(table: &Vec<(String, Vec<Method>)>, k: &String) -> (res: usize)
    ensures
        res == key_index(table.deep_view(), k@),
        res <= table.len(),
        res < table.len() ==> table.deep_view()[res as int].0 == k@,
        res == table.len() ==> !has_key(table.deep_view(), k@),
{
    let ghost t = table.deep_view();
    let mut i: usize = 0;
    while i < table.len() && table[i].0 != *k
        invariant
            i <= table.len(),
            t == table.deep_view(),
            key_index(t.take(i as int), k@) == i,
            forall|j: int| 0 <= j < i ==> (#[trigger] t[j]).0 != k@,
        decreases table.len() - i,
    {
        assert(t[i as int] == table@[i as int].deep_view());
        assert(t.take(i + 1).drop_last() =~= t.take(i as int));
        i = i + 1;
    }
    if i < table.len() {
        assert(t[i as int] == table@[i as int].deep_view());
        assert(t.take(i + 1).drop_last() =~= t.take(i as int));
        proof { lemma_key_index_stable(t, k@, i as int + 1); }
    } else {
        assert(t.take(i as int) =~= t);
    }
    i
}

proof fn lemma_key_index_stable(t: Seq<(Str, Seq<MethodModel>)>, k: Str, j: int)
    requires
        0 < j <= t.len(),
        key_index(t.take(j), k) < j,
    ensures
        key_index(t, k) == key_index(t.take(j), k),
    decreases t.len() - j,
{
    if j < t.len() {
        assert(t.take(j + 1).drop_last() =~= t.take(j));
        lemma_key_index_stable(t, k, j + 1);
    } else {
        assert(t.take(j) =~= t);
    }
}

fn find_action(actions: &Vec<Action>, a: &String) -> (res: usize)
    ensures
        res == action_index(actions.deep_view(), a@),
        res <= actions.len(),
{
    let ghost t = actions.deep_view();
    let mut i: usize = 0;
    while i < actions.len() && actions[i].name != *a
        invariant
            i <= actions.len(),
            t == actions.deep_view(),
            action_index(t.take(i as int), a@) == i,
        decreases actions.len() - i,
    {
        assert(t[i as int] == actions@[i as int]@);
        assert(t.take(i + 1).drop_last() =~= t.take(i as int));
        i = i + 1;
    }
    if i < actions.len() {
        assert(t[i as int] == actions@[i as int]@);
        assert(t.take(i + 1).drop_last() =~= t.take(i as int));
        proof { lemma_action_index_stable(t, a@, i as int + 1); }
    } else {
        assert(t.take(i as int) =~= t);
    }
    i
}

proof fn lemma_action_index_stable(t: Seq<ActionModel>, k: Str, j: int)
    requires
        0 < j <= t.len(),
        action_index(t.take(j), k) < j,
    ensures
        action_index(t, k) == action_index(t.take(j), k),
    decreases t.len() - j,
{
    if j < t.len() {
        assert(t.take(j + 1).drop_last() =~= t.take(j));
        lemma_action_index_stable(t, k, j + 1);
    } else {
        assert(t.take(j) =~= t);
    }
}

fn without_named(ms: &Vec<Method>, name: &String) -> (res: Vec<Method>)
    ensures
        res.deep_view() == methods_not_named(ms.deep_view(), name@),
{
    let ghost mv = ms.deep_view();
    let mut res: Vec<Method> = Vec::new();
    let mut j: usize = 0;
    while j < ms.len()
        invariant
            j <= ms.len(),
            mv == ms.deep_view(),
            res.deep_view() == methods_not_named(mv.take(j as int), name@),
        decreases ms.len() - j,
    {
        assert(mv[j as int] == ms@[j as int]@);
        assert(mv.take(j + 1).drop_last() =~= mv.take(j as int));
        let ghost before = res.deep_view();
        if !(ms[j].name == *name) {
            res.push(ms[j].clone());
            assert(res.deep_view() =~= before.push(mv[j as int]));
        }
        j = j + 1;
    }
    assert(mv.take(j as int) =~= mv);
    res
}

/// Whether every key that the trims need is in the table.
pub open spec fn trims_keyed(t: Seq<(Str, Seq<MethodModel>)>, trims: Seq<MethodModel>) -> bool {
    forall|k: int| 0 <= k < trims.len() ==> has_key(t, (#[trigger] trims[k]).task.0)
}

fn trim_domain_once(new_domain: &mut Domain, domain: &Domain, a: &String, trims: &Vec<Method>)
    requires
        trims_keyed(domain@.methods, trims.deep_view()),
        old(new_domain)@.methods.len() == domain@.methods.len(),
        forall|i: int| 0 <= i < domain@.methods.len() ==> (#[trigger] old(new_domain)@.methods[i]).0 == domain@.methods[i].0,
    ensures
        final(new_domain)@ == trim_once(old(new_domain)@, domain@, a@, trims.deep_view()),
        final(new_domain)@.methods.len() == domain@.methods.len(),
        forall|i: int| 0 <= i < domain@.methods.len() ==> (#[trigger] final(new_domain)@.methods[i]).0 == domain@.methods[i].0,
{
    let ghost nd = new_domain@;
    let ai = find_action(&new_domain.actions, a);
    if ai < new_domain.actions.len() {
        let ghost acts = new_domain.actions.deep_view();
        new_domain.actions.remove(ai);
        assert(new_domain.actions.deep_view() =~= acts.remove(ai as int));
    }
    let ghost tv = trims.deep_view();
    let ghost orig = domain@.methods;
    let mut k: usize = 0;
    while k < trims.len()
        invariant
            k <= trims.len(),
            tv == trims.deep_view(),
            orig == domain@.methods,
            trims_keyed(orig, tv),
            new_domain@.methods == apply_method_trims(nd.methods, orig, tv.take(k as int)),
            new_domain@.methods.len() == orig.len(),
            forall|i: int| 0 <= i < orig.len() ==> (#[trigger] new_domain@.methods[i]).0 == orig[i].0,
            new_domain@.actions == (if action_index(nd.actions, a@) < nd.actions.len() { nd.actions.remove(action_index(nd.actions, a@)) } else { nd.actions }),
            new_domain@.name == nd.name,
            new_domain@.tasks == nd.tasks,
            new_domain@.types == nd.types,
            new_domain@.constants == nd.constants,
            new_domain@.predicates == nd.predicates,
        decreases trims.len() - k,
    {
        let tm = &trims[k];
        assert(tv[k as int] == tm@);
        assert(tv.take(k + 1).drop_last() =~= tv.take(k as int));
        assert(has_key(orig, tm@.task.0));
        let oi = find_key(&domain.methods, &tm.task.0);
        assert(oi < domain.methods.len()) by {
            if oi == domain.methods.len() { assert(!has_key(orig, tm@.task.0)); }
        }
        let new_method_list = without_named(&domain.methods[oi].1, &tm.name);
        assert(orig[oi as int].1 == domain.methods@[oi as int].1.deep_view());
        let ni = find_key(&new_domain.methods, &tm.task.0);
        assert(ni < new_domain.methods.len()) by {
            if ni == new_domain.methods.len() {
                let w = choose|w: int| 0 <= w < orig.len() && (#[trigger] orig[w]).0 == tm@.task.0;
                assert(new_domain@.methods[w].0 == tm@.task.0);
            }
        }
        let ghost before = new_domain.methods.deep_view();
        let ghost nml = new_method_list.deep_view();
        new_domain.methods.set(ni, (tm.task.0.clone(), new_method_list));
        assert(new_domain.methods.deep_view() =~= before.update(ni as int, (tm@.task.0, nml)));
        k = k + 1;
    }
    assert(tv.take(k as int) =~= tv);
}

/// Removes the actions whose effects no goal, no method precondition (of
/// kind 1 or 2) and no action precondition needs, together with the methods
/// whose only subtask is such an action, unless one of those methods is the
/// last one left for its task.
pub fn effect_trim_domain(domain: &Domain, problem: &Problem) -> (res: Domain)
    requires
        problem@.goal is Some,
        table_keyed(domain@.methods),
    ensures
        res@ == effect_trimmed(domain@, problem@.goal.unwrap()),
{
    let ghost d = domain@;
    let goal = match &problem.goal { Some(g) => g, None => { proof { assert(false); } return domain.clone(); } };
    let ghost gv = goal.deep_view();
    let mut new_domain = domain.clone();
    let mut a: usize = 0;
    while a < domain.actions.len()
        invariant
            a <= domain.actions.len(),
            d == domain@,
            gv == goal.deep_view(),
            gv == problem@.goal.unwrap(),
            table_keyed(d.methods),
            new_domain@ == actions_trim(d, gv, d.actions.take(a as int)),
            new_domain@.methods.len() == d.methods.len(),
            forall|i: int| 0 <= i < d.methods.len() ==> (#[trigger] new_domain@.methods[i]).0 == d.methods[i].0,
        decreases domain.actions.len() - a,
    {
        let action = &domain.actions[a];
        assert(d.actions[a as int] == action@);
        assert(d.actions.take(a + 1).drop_last() =~= d.actions.take(a as int));
        if let Some(effects) = &action.effect {
            let ghost ev = effects.deep_view();
            let ghost start = new_domain@;
            let mut e: usize = 0;
            let mut stopped = false;
            while e < effects.len() && !stopped
                invariant
                    e <= effects.len(),
                    ev == effects.deep_view(),
                    d == domain@,
                    gv == goal.deep_view(),
                    table_keyed(d.methods),
                    effects_trim(start, d, gv, action.name@, ev.take(e as int)) == (new_domain@, stopped),
                    new_domain@.methods.len() == d.methods.len(),
                    forall|i: int| 0 <= i < d.methods.len() ==> (#[trigger] new_domain@.methods[i]).0 == d.methods[i].0,
                decreases effects.len() - e,
            {
                let effect = &effects[e];
                assert(ev[e as int] == effect.deep_view());
                assert(ev.take(e + 1).drop_last() =~= ev.take(e as int));
                let needed = goal_mentions(goal, &effect.1) || method_precons_mention(domain, &effect.1) || action_precons_mention(domain, &effect.1);
                if needed {
                    stopped = true;
                } else {
                    match trims_for(domain, &action.name) {
                        None => { stopped = true; },
                        Some(trims) => {
                            if trims.len() == 0 {
                                assert(trims.deep_view().len() == 0);
                                stopped = true;
                            } else {
                                assert(trims.deep_view().len() > 0);
                                proof { lemma_trims_keyed(d.methods, action.name@); }
                                trim_domain_once(&mut new_domain, domain, &action.name, &trims);
                            }
                        },
                    }
                }
                e = e + 1;
            }
            if stopped {
                proof { lemma_effects_trim_stopped(start, d, gv, action.name@, ev, e as int); }
            } else {
                assert(ev.take(e as int) =~= ev);
            }
        }
        a = a + 1;
    }
    assert(d.actions.take(a as int) =~= d.actions);
    new_domain
}

proof fn lemma_effects_trim_stopped(nd: DomainModel, d: DomainModel, goal: StateModel, a: Str, es: Seq<EffectModel>, e: int)
    requires
        0 <= e <= es.len(),
        effects_trim(nd, d, goal, a, es.take(e)).1,
    ensures
        effects_trim(nd, d, goal, a, es) == effects_trim(nd, d, goal, a, es.take(e)),
    decreases es.len() - e,
{
    if e == es.len() {
        assert(es.take(e) =~= es);
    } else {
        assert(es.take(e + 1).drop_last() =~= es.take(e));
        assert(effects_trim(nd, d, goal, a, es.take(e + 1)) == effects_trim(nd, d, goal, a, es.take(e)));
        lemma_effects_trim_stopped(nd, d, goal, a, es, e + 1);
    }
}

proof fn lemma_list_trims_keyed(t: Seq<(Str, Seq<MethodModel>)>, i: int, ms: Seq<MethodModel>, n: int, a: Str, found: Seq<MethodModel>)
    requires
        table_keyed(t),
        0 <= i < t.len(),
        ms.is_prefix_of(t[i].1),
        trims_keyed(t, found),
        list_trims_full(ms, n, a, found) is Some,
    ensures
        trims_keyed(t, list_trims_full(ms, n, a, found).unwrap().0),
    decreases ms.len(),
{
    if ms.len() > 0 {
        assert(ms.drop_last().is_prefix_of(t[i].1));
        lemma_list_trims_keyed(t, i, ms.drop_last(), n, a, found);
        let f = list_trims_full(ms.drop_last(), n, a, found).unwrap().0;
        assert(ms.last() == t[i].1[ms.len() - 1]);
        assert(has_key(t, t[i].1[ms.len() - 1].task.0));
        let f2 = list_trims_full(ms, n, a, found).unwrap().0;
        assert forall|k: int| 0 <= k < f2.len() implies has_key(t, (#[trigger] f2[k]).task.0) by {
            if k < f.len() { assert(f2[k] == f[k]); }
        }
    }
}

proof fn lemma_trims_keyed_prefix(t: Seq<(Str, Seq<MethodModel>)>, a: Str, i: int)
    requires
        table_keyed(t),
        0 <= i <= t.len(),
        table_trims(t.take(i), a) is Some,
    ensures
        trims_keyed(t, table_trims(t.take(i), a).unwrap()),
    decreases i,
{
    if i > 0 {
        let p = t.take(i);
        assert(p.drop_last() =~= t.take(i - 1));
        lemma_trims_keyed_prefix(t, a, i - 1);
        assert(p.last() == t[i - 1]);
        assert(t[i - 1].1.is_prefix_of(t[i - 1].1));
        lemma_list_trims_keyed(t, i - 1, t[i - 1].1, t[i - 1].1.len() as int, a, table_trims(t.take(i - 1), a).unwrap());
    }
}

pub proof fn lemma_trims_keyed(t: Seq<(Str, Seq<MethodModel>)>, a: Str)
    requires
        table_keyed(t),
        table_trims(t, a) is Some,
    ensures
        trims_keyed(t, table_trims(t, a).unwrap()),
{
    assert(t.take(t.len() as int) =~= t);
    lemma_trims_keyed_prefix(t, a, t.len() as int);
}

} // verus!
