//! Performing the entries of a node's subtask queue: expanding tasks into
//! methods, stepping through methods and applying actions.
use vstd::prelude::*;
use crate::datastructures::domain::{Str, Argument, ArgumentModel, Task, Action, ActionModel, Method, MethodModel, MethodSubtask, MethodSubtaskModel, clone_strings};
use crate::datastructures::node::{RelVars, RelVarsModel, AppliedFunctions, AppliedFunctionsModel, SubtaskTypes, SubtaskTypesModel, clone_relvars};
use crate::datastructures::problem::Object;
use crate::text::{is_var, is_variable, string_of};
use crate::toolbox::relvars::{has_name, first_named, lemma_first_named};
use crate::toolbox::nodes::no_name;

pub mod partial;
pub mod htn;
pub mod method;
pub mod action;


verus! {

/// For every argument of a task, the first relevant variable with its name, if any.
pub open spec fn first_matches(args: Seq<Str>, rv: RelVarsModel) -> RelVarsModel
    decreases args.len(),
{
    if args.len() == 0 {
        Seq::empty()
    } else {
        let r = first_matches(args.drop_last(), rv);
        let a = args.last();
        if has_name(rv, a) { r.push(rv[first_named(rv, a)]) } else { r }
    }
}

/// For every argument of a task, the first relevant variable with its name, if any.
pub fn task_rel_vars(args: &Vec<String>, rv: &RelVars) -> (res: RelVars)
    ensures
        res.deep_view() == first_matches(args.deep_view(), rv.deep_view()),
{
    let ghost a = args.deep_view();
    let ghost s = rv.deep_view();
    let mut res: RelVars = Vec::new();
    let mut k: usize = 0;
    while k < args.len()
        invariant
            a == args.deep_view(),
            s == rv.deep_view(),
            k <= args.len(),
            res.deep_view() == first_matches(a.take(k as int), s),
        decreases args.len() - k,
    {
        assert(a.take(k + 1).drop_last() =~= a.take(k as int));
        assert(a[k as int] == args@[k as int]@);
        let mut j: usize = 0;
        while j < rv.len() && rv[j].0 != args[k]
            invariant
                s == rv.deep_view(),
                a == args.deep_view(),
                k < args.len(),
                j <= rv.len(),
                forall|q: int| 0 <= q < j ==> (#[trigger] s[q]).0 != a[k as int],
            decreases rv.len() - j,
        {
            assert(s[j as int] == rv@[j as int].deep_view());
            j = j + 1;
        }
        let ghost before = res.deep_view();
        if j < rv.len() {
            assert(s[j as int] == rv@[j as int].deep_view());
            proof { lemma_first_named(s, a[k as int], j as int); }
            res.push((rv[j].0.clone(), rv[j].1.clone(), clone_strings(&rv[j].2)));
            assert(res.deep_view() =~= before.push(s[j as int]));
        } else {
            assert(!has_name(s, a[k as int]));
        }
        k = k + 1;
    }
    assert(a.take(k as int) =~= a);
    res
}

/// The values of the last relevant variable with the given name, if any.
pub open spec fn last_named_values(rv: RelVarsModel, name: Str) -> Option<Seq<Str>>
    decreases rv.len(),
{
    if rv.len() == 0 {
        None
    } else if rv.last().0 == name {
        Some(rv.last().2)
    } else {
        last_named_values(rv.drop_last(), name)
    }
}

/// The values that the finished method's variables give to argument `pc` of
/// a task named `name`: over the method's first `n` subtasks that are tasks
/// of that name, the values of the last relevant variable named like their
/// argument `pc`, the last such subtask winning.
pub open spec fn over_value(name: Str, pc: int, subtasks: Seq<(MethodSubtaskModel, Seq<ArgumentModel>)>, rv: RelVarsModel, n: int) -> Option<Seq<Str>>
    decreases n,
{
    if n <= 0 {
        None
    } else {
        let prev = over_value(name, pc, subtasks, rv, n - 1);
        match subtasks[n - 1].0 {
            MethodSubtaskModel::Task(ot) => if ot.name == name {
                match last_named_values(rv, ot.parameters[pc].name) {
                    Some(v) => Some(v),
                    None => prev,
                }
            } else {
                prev
            },
            _ => prev,
        }
    }
}

/// The task name of an applied function: the task of a method, else empty.
pub open spec fn applied_task_name(e: SubtaskTypesModel) -> Str {
    match e {
        SubtaskTypesModel::Method(sm) => sm.task.0,
        _ => Seq::empty(),
    }
}

/// An applied function after its method's caller finished: each argument
/// with more than one value takes the values the caller's variables give it.
pub open spec fn refine_entry(e: (SubtaskTypesModel, usize, Seq<usize>, RelVarsModel), m: MethodModel, rv: RelVarsModel) -> (SubtaskTypesModel, usize, Seq<usize>, RelVarsModel) {
    let name = applied_task_name(e.0);
    let ps = e.3;
    (e.0, e.1, e.2, Seq::new(ps.len(), |pc: int|
        if ps[pc].2.len() > 1 && over_value(name, pc, m.subtasks, rv, m.subtasks.len() as int) is Some {
            (ps[pc].0, ps[pc].1, over_value(name, pc, m.subtasks, rv, m.subtasks.len() as int).unwrap())
        } else {
            ps[pc]
        }))
}

/// The applied functions after refining the entries listed among the first `n`, in turn.
pub open spec fn refine_all(entries: Seq<(SubtaskTypesModel, usize, Seq<usize>, RelVarsModel)>, list: Seq<usize>, m: MethodModel, rv: RelVarsModel, n: int) -> Seq<(SubtaskTypesModel, usize, Seq<usize>, RelVarsModel)>
    decreases n,
{
    if n <= 0 {
        entries
    } else {
        let e = refine_all(entries, list, m, rv, n - 1);
        e.update(list[n - 1] as int, refine_entry(e[list[n - 1] as int], m, rv))
    }
}

/// What a finished method records: its own entry gets the relevant variables
/// of its task's arguments, and the entries of the functions it called are refined.
pub open spec fn finished_applied(af: AppliedFunctionsModel, m: MethodModel, rv: RelVarsModel) -> AppliedFunctionsModel {
    let id = m.id as int;
    let own = af.1[id];
    let af1 = af.1.update(id, (own.0, own.1, own.2, first_matches(m.task.1, rv)));
    (af.0, refine_all(af1, own.2, m, rv, own.2.len() as int))
}

/// The inputs on which a finished method can record: its entry exists, the
/// entries it lists exist, and a task subtask of the same name as a listed
/// entry's task has a parameter for each of the entry's arguments.
pub open spec fn finish_possible(af: AppliedFunctionsModel, m: MethodModel) -> bool {
    let id = m.id as int;
    &&& 0 <= id < af.1.len()
    &&& forall|k: int| 0 <= k < af.1[id].2.len() ==> (#[trigger] af.1[id].2[k]) < af.1.len()
    &&& forall|s: int, k: int| 0 <= s < af.1.len() && 0 <= k < m.subtasks.len() && (#[trigger] m.subtasks[k]).0 is Task
        && m.subtasks[k].0->Task_0.name == applied_task_name((#[trigger] af.1[s]).0)
        ==> (if s == id { m.task.1.len() } else { af.1[s].3.len() }) <= m.subtasks[k].0->Task_0.parameters.len()
}

proof fn lemma_first_matches_len(args: Seq<Str>, rv: RelVarsModel)
    ensures
        first_matches(args, rv).len() <= args.len(),
    decreases args.len(),
{
    if args.len() > 0 {
        lemma_first_matches_len(args.drop_last(), rv);
    }
}

fn last_named_exec(rv: &RelVars, name: &String) -> (res: Option<Vec<String>>)
    ensures
        res.deep_view() == last_named_values(rv.deep_view(), name@),
{
    let ghost s = rv.deep_view();
    let mut j: usize = rv.len();
    assert(s.take(j as int) =~= s);
    while j > 0
        invariant
            s == rv.deep_view(),
            j <= rv.len(),
            last_named_values(s, name@) == last_named_values(s.take(j as int), name@),
        decreases j,
    {
        assert(s.take(j as int).drop_last() =~= s.take(j - 1));
        assert(s[j - 1] == rv@[j - 1].deep_view());
        if rv[j - 1].0 == *name {
            return Some(clone_strings(&rv[j - 1].2));
        }
        j = j - 1;
    }
    None
}

fn over_value_exec(name: &String, pc: usize, m: &Method, rv: &RelVars) -> (res: Option<Vec<String>>)
    requires
        forall|k: int| 0 <= k < m@.subtasks.len() && (#[trigger] m@.subtasks[k]).0 is Task && m@.subtasks[k].0->Task_0.name == name@
            ==> pc < m@.subtasks[k].0->Task_0.parameters.len(),
    ensures
        res.deep_view() == over_value(name@, pc as int, m@.subtasks, rv.deep_view(), m@.subtasks.len() as int),
{
    let ghost sts = m@.subtasks;
    let mut res: Option<Vec<String>> = None;
    let mut k: usize = 0;
    while k < m.subtasks.len()
        invariant
            sts == m@.subtasks,
            forall|q: int| 0 <= q < sts.len() && (#[trigger] sts[q]).0 is Task && sts[q].0->Task_0.name == name@
                ==> pc < sts[q].0->Task_0.parameters.len(),
            k <= m.subtasks.len(),
            res.deep_view() == over_value(name@, pc as int, sts, rv.deep_view(), k as int),
        decreases m.subtasks.len() - k,
    {
        assert(sts[k as int] == m.subtasks@[k as int].deep_view());
        match &m.subtasks[k].0 {
            MethodSubtask::Task(ot) => {
                if ot.name == *name {
                    assert(ot.parameters.deep_view()[pc as int] == ot.parameters@[pc as int]@);
                    match last_named_exec(rv, &ot.parameters[pc].name) {
                        Some(v) => { res = Some(v); },
                        None => {},
                    }
                }
            },
            MethodSubtask::Action(_) => {},
        }
        k = k + 1;
    }
    res
}

/// Records what a finished method found: its own entry gets the relevant
/// variables of its task's arguments, and the entries of the functions it
/// called get the values their unsettled arguments took.
pub fn finish_applied(af: &mut AppliedFunctions, method: &Method, rv: &RelVars)
    requires
        finish_possible(old(af).deep_view(), method@),
    ensures
        final(af).deep_view() == finished_applied(old(af).deep_view(), method@, rv.deep_view()),
{
    let ghost a0 = af.deep_view();
    let ghost m = method@;
    let id = method.id;
    let trimmed = task_rel_vars(&method.task.1, rv);
    let ghost own = a0.1[id as int];
    assert(own == af.1@[id as int].deep_view());
    let old_entry = &af.1[id];
    let entry = (old_entry.0.clone(), old_entry.1, crate::datastructures::node::clone_indices(&old_entry.2), trimmed);
    af.1.set(id, entry);
    let ghost af1 = a0.1.update(id as int, (own.0, own.1, own.2, first_matches(m.task.1, rv.deep_view())));
    assert(af.1.deep_view() =~= af1);
    let list = crate::datastructures::node::clone_indices(&af.1[id].2);
    assert(list@ == own.2);
    let mut k: usize = 0;
    while k < list.len()
        invariant
            m == method@,
            list@ == own.2,
            af.0.deep_view() == a0.0,
            forall|q: int| 0 <= q < list@.len() ==> (#[trigger] list@[q]) < a0.1.len(),
            af.1.len() == a0.1.len(),
            finish_possible(a0, m),
            k <= list.len(),
            af.1.deep_view() == refine_all(af1, own.2, m, rv.deep_view(), k as int),
            forall|s: int| 0 <= s < af.1.len() ==> (#[trigger] af.1.deep_view()[s]).0 == af1[s].0 && af.1.deep_view()[s].3.len() == af1[s].3.len(),
        decreases list.len() - k,
    {
        let s = list[k];
        let ghost cur = af.1.deep_view();
        let e = &af.1[s];
        assert(cur[s as int] == e.deep_view());
        let name: String = match &e.0 {
            SubtaskTypes::Method(sm) => sm.task.0.clone(),
            _ => string_of(""),
        };
        proof { reveal_strlit(""); }
        assert(name@ == applied_task_name(cur[s as int].0));
        let ghost ps = cur[s as int].3;
        let mut params = clone_relvars(&e.3);
        let mut pc: usize = 0;
        while pc < params.len()
            invariant
                m == method@,
                ps == cur[s as int].3,
                name@ == applied_task_name(cur[s as int].0),
                params.len() == ps.len(),
                finish_possible(a0, m),
                s < a0.1.len(),
                cur[s as int].0 == af1[s as int].0,
                cur[s as int].3.len() == af1[s as int].3.len(),
                pc <= params.len(),
                forall|q: int| 0 <= q < pc ==> #[trigger] params.deep_view()[q] == refine_entry(cur[s as int], m, rv.deep_view()).3[q],
                forall|q: int| pc <= q < params.len() ==> #[trigger] params.deep_view()[q] == ps[q],
            decreases params.len() - pc,
        {
            assert(params.deep_view()[pc as int] == params@[pc as int].deep_view());
            if params[pc].2.len() > 1 {
                proof {
                    let ss = s as int;
                    lemma_first_matches_len(m.task.1, rv.deep_view());
                    assert(af1[ss].3.len() <= (if ss == id as int { m.task.1.len() } else { a0.1[ss].3.len() }));
                    assert(applied_task_name(a0.1[ss].0) == name@) by {
                        assert(af1[ss].0 == a0.1[ss].0);
                    }
                    assert forall|q: int| 0 <= q < m.subtasks.len() && (#[trigger] m.subtasks[q]).0 is Task && m.subtasks[q].0->Task_0.name == name@
                        implies pc < m.subtasks[q].0->Task_0.parameters.len() by {
                        assert(m.subtasks[q].0->Task_0.name == applied_task_name(a0.1[ss].0));
                    }
                }
                match over_value_exec(&name, pc, method, rv) {
                    Some(v) => {
                        let ghost before = params.deep_view();
                        let n0 = params[pc].0.clone();
                        let n1 = params[pc].1.clone();
                        params.set(pc, (n0, n1, v));
                        assert forall|q: int| 0 <= q < params.len() && q != pc implies #[trigger] params.deep_view()[q] == before[q] by {
                            assert(params.deep_view()[q] == params@[q].deep_view());
                        }
                        assert(params.deep_view()[pc as int] == params@[pc as int].deep_view());
                    },
                    None => {},
                }
            }
            pc = pc + 1;
        }
        assert(params.deep_view() =~= refine_entry(cur[s as int], m, rv.deep_view()).3);
        let new_entry = (af.1[s].0.clone(), af.1[s].1, crate::datastructures::node::clone_indices(&af.1[s].2), params);
        af.1.set(s, new_entry);
        assert(af.1.deep_view() =~= cur.update(s as int, refine_entry(cur[s as int], m, rv.deep_view())));
        k = k + 1;
    }
}


// ------------------------------------------------------------------------
// The relevant variables of a method's next subtask.

/// An entry named `newname` for every relevant variable among the first `n` named `p`.
pub open spec fn var_entries(p: Str, newname: Str, rv: RelVarsModel, n: int) -> RelVarsModel
    decreases n,
{
    if n <= 0 {
        Seq::empty()
    } else {
        let r = var_entries(p, newname, rv, n - 1);
        if rv[n - 1].0 == p { r.push((newname, rv[n - 1].1, rv[n - 1].2)) } else { r }
    }
}

/// An entry named `newname` holding just the object for every object among the first `n` named `p`.
pub open spec fn const_entries(p: Str, newname: Str, objects: Seq<(Str, Str, Seq<Str>)>, n: int) -> RelVarsModel
    decreases n,
{
    if n <= 0 {
        Seq::empty()
    } else {
        let r = const_entries(p, newname, objects, n - 1);
        if objects[n - 1].0 == p { r.push((newname, objects[n - 1].1, seq![objects[n - 1].0])) } else { r }
    }
}

/// The relevant variables of a task subtask, over its first `n` parameters:
/// a variable parameter takes the values of every relevant variable of its
/// name, under the name of the method's argument; a constant holds itself.
pub open spec fn task_call_relvars(params: Seq<ArgumentModel>, actual: Seq<ArgumentModel>, rv: RelVarsModel, objects: Seq<(Str, Str, Seq<Str>)>, n: int) -> RelVarsModel
    decreases n,
{
    if n <= 0 {
        Seq::empty()
    } else {
        let p = params[n - 1].name;
        task_call_relvars(params, actual, rv, objects, n - 1) + (if is_var(p) {
            var_entries(p, actual[n - 1].name, rv, rv.len() as int)
        } else {
            const_entries(p, no_name(), objects, objects.len() as int)
        })
    }
}

/// The relevant variables of an action subtask, over its first `n`
/// parameters: a variable parameter takes the values of the first relevant
/// variable of its name, a constant holds itself; both under the name of the
/// method's argument.
pub open spec fn action_call_relvars(params: Seq<ArgumentModel>, actual: Seq<ArgumentModel>, rv: RelVarsModel, objects: Seq<(Str, Str, Seq<Str>)>, n: int) -> RelVarsModel
    decreases n,
{
    if n <= 0 {
        Seq::empty()
    } else {
        let p = params[n - 1].name;
        action_call_relvars(params, actual, rv, objects, n - 1) + (if is_var(p) {
            if has_name(rv, p) {
                seq![(actual[n - 1].name, rv[first_named(rv, p)].1, rv[first_named(rv, p)].2)]
            } else {
                Seq::empty()
            }
        } else {
            const_entries(p, actual[n - 1].name, objects, objects.len() as int)
        })
    }
}

/// The parameters of an action subtask once called: a variable parameter
/// with a relevant variable takes the name of the method's argument.
pub open spec fn action_call_params(params: Seq<ArgumentModel>, actual: Seq<ArgumentModel>, rv: RelVarsModel) -> Seq<ArgumentModel> {
    Seq::new(params.len(), |n: int|
        if is_var(params[n].name) && has_name(rv, params[n].name) {
            ArgumentModel { name: actual[n].name, object_type: params[n].object_type }
        } else {
            params[n]
        })
}

pub(crate) fn var_entries_exec(p: &String, newname: &String, rv: &RelVars, out: &mut RelVars)
    ensures
        final(out).deep_view() == old(out).deep_view() + var_entries(p@, newname@, rv.deep_view(), rv.len() as int),
{
    let ghost s = rv.deep_view();
    let ghost start = out.deep_view();
    let mut j: usize = 0;
    assert(start + var_entries(p@, newname@, s, 0) =~= start);
    while j < rv.len()
        invariant
            s == rv.deep_view(),
            j <= rv.len(),
            out.deep_view() == start + var_entries(p@, newname@, s, j as int),
        decreases rv.len() - j,
    {
        assert(s[j as int] == rv@[j as int].deep_view());
        if rv[j].0 == *p {
            let ghost before = out.deep_view();
            out.push((newname.clone(), rv[j].1.clone(), clone_strings(&rv[j].2)));
            assert(out.deep_view() =~= before.push((newname@, s[j as int].1, s[j as int].2)));
            assert(start + var_entries(p@, newname@, s, j + 1) =~= (start + var_entries(p@, newname@, s, j as int)).push((newname@, s[j as int].1, s[j as int].2)));
        }
        j = j + 1;
    }
}

/// Appends an entry named `newname` holding just the object for every object named `p`.
pub fn const_entries_exec_pub(p: &String, newname: &String, objects: &Vec<Object>, out: &mut RelVars)
    ensures
        final(out).deep_view() == old(out).deep_view() + const_entries(p@, newname@, objects.deep_view(), objects.len() as int),
{
    let ghost o = objects.deep_view();
    let ghost start = out.deep_view();
    let mut j: usize = 0;
    assert(start + const_entries(p@, newname@, o, 0) =~= start);
    while j < objects.len()
        invariant
            o == objects.deep_view(),
            j <= objects.len(),
            out.deep_view() == start + const_entries(p@, newname@, o, j as int),
        decreases objects.len() - j,
    {
        assert(o[j as int] == objects@[j as int].deep_view());
        if objects[j].0 == *p {
            let mut one: Vec<String> = Vec::new();
            one.push(objects[j].0.clone());
            assert(one.deep_view() =~= seq![o[j as int].0]);
            let ghost before = out.deep_view();
            out.push((newname.clone(), objects[j].1.clone(), one));
            let ghost e = (newname@, o[j as int].1, seq![o[j as int].0]);
            assert(out.deep_view() =~= before.push(e));
            assert(start + const_entries(p@, newname@, o, j + 1) =~= (start + const_entries(p@, newname@, o, j as int)).push(e));
        }
        j = j + 1;
    }
}

/// The relevant variables of a task subtask of a method.
pub fn task_call_relvars_exec(task: &Task, actual: &Vec<Argument>, rv: &RelVars, objects: &Vec<Object>) -> (res: RelVars)
    requires
        actual.len() >= task.parameters.len(),
    ensures
        res.deep_view() == task_call_relvars(task@.parameters, actual.deep_view(), rv.deep_view(), objects.deep_view(), task@.parameters.len() as int),
{
    let ghost ps = task@.parameters;
    let ghost ac = actual.deep_view();
    let mut res: RelVars = Vec::new();
    let mut x: usize = 0;
    let nn = string_of("no name");
    while x < task.parameters.len()
        invariant
            ps == task@.parameters,
            ac == actual.deep_view(),
            actual.len() >= task.parameters.len(),
            nn@ == no_name(),
            x <= task.parameters.len(),
            res.deep_view() == task_call_relvars(ps, ac, rv.deep_view(), objects.deep_view(), x as int),
        decreases task.parameters.len() - x,
    {
        assert(ps[x as int] == task.parameters@[x as int].deep_view());
        assert(ac[x as int] == actual@[x as int].deep_view());
        if is_variable(&task.parameters[x].name) {
            var_entries_exec(&task.parameters[x].name, &actual[x].name, rv, &mut res);
        } else {
            const_entries_exec_pub(&task.parameters[x].name, &nn, objects, &mut res);
        }
        x = x + 1;
    }
    res
}

/// The relevant variables of an action subtask of a method, and the action
/// with its variable parameters renamed to the method's arguments.
pub fn action_call_exec(action: &Action, actual: &Vec<Argument>, rv: &RelVars, objects: &Vec<Object>) -> (res: (RelVars, Action))
    requires
        actual.len() >= action.parameters.len(),
    ensures
        res.0.deep_view() == action_call_relvars(action@.parameters, actual.deep_view(), rv.deep_view(), objects.deep_view(), action@.parameters.len() as int),
        res.1@ == (ActionModel { parameters: action_call_params(action@.parameters, actual.deep_view(), rv.deep_view()), ..action@ }),
{
    let ghost ps = action@.parameters;
    let ghost ac = actual.deep_view();
    let ghost s = rv.deep_view();
    let mut res: RelVars = Vec::new();
    let mut new_action = action.clone();
    let mut n: usize = 0;
    while n < action.parameters.len()
        invariant
            ps == action@.parameters,
            ac == actual.deep_view(),
            s == rv.deep_view(),
            actual.len() >= action.parameters.len(),
            new_action@ == (ActionModel { parameters: new_action@.parameters, ..action@ }),
            new_action.parameters.len() == action.parameters.len(),
            n <= action.parameters.len(),
            forall|q: int| 0 <= q < n ==> #[trigger] new_action@.parameters[q] == action_call_params(ps, ac, s)[q],
            forall|q: int| n <= q < ps.len() ==> #[trigger] new_action@.parameters[q] == ps[q],
            res.deep_view() == action_call_relvars(ps, ac, s, objects.deep_view(), n as int),
        decreases action.parameters.len() - n,
    {
        assert(ps[n as int] == action.parameters@[n as int].deep_view());
        assert(ac[n as int] == actual@[n as int].deep_view());
        let p = &action.parameters[n].name;
        if is_variable(p) {
            let mut j: usize = 0;
            while j < rv.len() && rv[j].0 != *p
                invariant
                    s == rv.deep_view(),
                    j <= rv.len(),
                    forall|q: int| 0 <= q < j ==> (#[trigger] s[q]).0 != p@,
                decreases rv.len() - j,
            {
                assert(s[j as int] == rv@[j as int].deep_view());
                j = j + 1;
            }
            let ghost before = res.deep_view();
            if j < rv.len() {
                assert(s[j as int] == rv@[j as int].deep_view());
                proof { lemma_first_named(s, p@, j as int); }
                res.push((actual[n].name.clone(), rv[j].1.clone(), clone_strings(&rv[j].2)));
                assert(res.deep_view() =~= before + seq![(ac[n as int].name, s[j as int].1, s[j as int].2)]);
                let ghost pa = new_action@.parameters;
                let renamed = Argument { name: actual[n].name.clone(), object_type: action.parameters[n].object_type.clone() };
                new_action.parameters.set(n, renamed);
                assert forall|q: int| 0 <= q < new_action.parameters.len() && q != n implies #[trigger] new_action@.parameters[q] == pa[q] by {
                    assert(new_action@.parameters[q] == new_action.parameters@[q]@);
                    assert(pa[q] == new_action.parameters@[q]@);
                }
                assert(new_action@.parameters[n as int] == new_action.parameters@[n as int]@);
            } else {
                assert(!has_name(s, p@));
                assert(res.deep_view() =~= before + Seq::<(Str, Str, Seq<Str>)>::empty());
            }
        } else {
            const_entries_exec_pub(p, &actual[n].name, objects, &mut res);
        }
        n = n + 1;
    }
    assert(new_action@.parameters =~= action_call_params(ps, ac, s));
    (res, new_action)
}

} // verus!
