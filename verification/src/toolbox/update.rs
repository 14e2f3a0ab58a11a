//! Object types and the relevant variables of methods.
use vstd::prelude::*;
use crate::datastructures::domain::{Str, Domain, Method, MethodModel, Argument, ArgumentModel, Precondition, clone_strings};
use crate::datastructures::node::{RelVars, RelVarsModel, Node, NodeModel, PartialNode, PartialNodeModel, Called, SubtaskTypes, SubtaskTypesModel};
use crate::datastructures::problem::{Problem, ProblemModel, Object};
use crate::toolbox::relvars::{has_name, first_named, lemma_first_named};
use crate::toolbox::passing_preconditions::subtask_params;
use crate::text::contains_string;
use crate::toolbox::relvars::{check_duplicates, merged, dedup_merge};

verus! {

/// The direct supertypes of a type, in the order the domain declares them
/// (a type declared as its own supertype, or with no supertype, adds nothing).
pub open spec fn parent_types(types: Seq<(Str, Str)>, t: Str) -> Seq<Str>
    decreases types.len(),
{
    if types.len() == 0 {
        Seq::empty()
    } else {
        let rest = parent_types(types.drop_last(), t);
        let last = types.last();
        if last.0 == t && last.1 != last.0 && last.1 != Seq::<char>::empty() { rest.push(last.1) } else { rest }
    }
}

/// All supertypes of a type, as a depth-first expansion that takes the last
/// parent first, going at most `fuel` levels up.
pub open spec fn supertypes(types: Seq<(Str, Str)>, t: Str, fuel: nat) -> Seq<Str>
    decreases fuel, 0nat, 0nat,
{
    if fuel == 0 {
        Seq::empty()
    } else {
        let ps = parent_types(types, t);
        ps + supertypes_of_list(types, ps, (fuel - 1) as nat)
    }
}

/// The expansions of a list of types, the last one first.
pub open spec fn supertypes_of_list(types: Seq<(Str, Str)>, ps: Seq<Str>, fuel: nat) -> Seq<Str>
    decreases fuel, 1nat, ps.len(),
{
    if ps.len() == 0 {
        Seq::empty()
    } else {
        supertypes(types, ps.last(), fuel) + supertypes_of_list(types, ps.drop_last(), fuel)
    }
}

/// An object with the list of all its types: its own type, then its supertypes.
pub open spec fn typed_object(types: Seq<(Str, Str)>, o: (Str, Str, Seq<Str>)) -> (Str, Str, Seq<Str>) {
    (o.0, o.1, seq![o.1] + supertypes(types, o.1, types.len()))
}

/// The objects of a problem after `update_objects`: the problem's objects,
/// then the domain's constants, each with its list of types.
pub open spec fn updated_objects(objects: Seq<(Str, Str, Seq<Str>)>, constants: Option<Seq<(Str, Str)>>, types: Seq<(Str, Str)>) -> Seq<(Str, Str, Seq<Str>)> {
    let all = match constants {
        Some(c) => objects + c.map_values(|p: (Str, Str)| (p.0, p.1, Seq::<Str>::empty())),
        None => objects,
    };
    all.map_values(|o: (Str, Str, Seq<Str>)| typed_object(types, o))
}

fn parents_of(types: &Vec<(String, String)>, t: &String) -> (res: Vec<String>)
    ensures
        res.deep_view() == parent_types(types.deep_view(), t@),
{
    let ghost tv = types.deep_view();
    let empty = String::new();
    let mut res: Vec<String> = Vec::new();
    let mut i: usize = 0;
    while i < types.len()
        invariant
            i <= types.len(),
            tv == types.deep_view(),
            empty@ == Seq::<char>::empty(),
            res.deep_view() == parent_types(tv.take(i as int), t@),
        decreases types.len() - i,
    {
        assert(tv[i as int] == types@[i as int].deep_view());
        assert(tv.take(i + 1).drop_last() =~= tv.take(i as int));
        let sub_type = &types[i];
        let ghost before = res.deep_view();
        if sub_type.0 == *t && sub_type.1 != sub_type.0 && sub_type.1 != empty {
            res.push(sub_type.1.clone());
            assert(res.deep_view() =~= before.push(sub_type.1@));
        }
        i = i + 1;
    }
    assert(tv.take(i as int) =~= tv);
    res
}

fn append_strings(dst: &mut Vec<String>, src: &Vec<String>)
    ensures
        final(dst).deep_view() == old(dst).deep_view() + src.deep_view(),
{
    let ghost start = dst.deep_view();
    let mut i: usize = 0;
    while i < src.len()
        invariant
            i <= src.len(),
            dst.deep_view() == start + src.deep_view().take(i as int),
        decreases src.len() - i,
    {
        assert(src.deep_view()[i as int] == src@[i as int]@);
        let ghost before = dst.deep_view();
        dst.push(src[i].clone());
        assert(dst.deep_view() =~= before.push(src@[i as int]@));
        proof { crate::text::lemma_take_one_more(src.deep_view(), i as int); }
        assert(dst.deep_view() =~= start + src.deep_view().take(i + 1));
        i = i + 1;
    }
    assert(src.deep_view().take(i as int) =~= src.deep_view());
}

fn expand_type(types: &Vec<(String, String)>, t: &String, fuel: usize) -> (res: Vec<String>)
    ensures
        res.deep_view() == supertypes(types.deep_view(), t@, fuel as nat),
    decreases fuel, 0nat, 0nat,
{
    if fuel == 0 {
        return Vec::new();
    }
    let ps = parents_of(types, t);
    let mut res = clone_strings(&ps);
    let rest = expand_list(types, &ps, ps.len(), fuel - 1);
    assert(ps.deep_view().take(ps.len() as int) =~= ps.deep_view());
    append_strings(&mut res, &rest);
    res
}

fn expand_list(types: &Vec<(String, String)>, ps: &Vec<String>, n: usize, fuel: usize) -> (res: Vec<String>)
    requires
        n <= ps.len(),
    ensures
        res.deep_view() == supertypes_of_list(types.deep_view(), ps.deep_view().take(n as int), fuel as nat),
    decreases fuel, 1nat, n,
{
    if n == 0 {
        let res: Vec<String> = Vec::new();
        assert(res.deep_view() =~= Seq::<Str>::empty());
        return res;
    }
    let ghost pv = ps.deep_view().take(n as int);
    assert(pv.last() == ps@[n - 1]@);
    assert(pv.drop_last() =~= ps.deep_view().take(n - 1));
    let mut res = expand_type(types, &ps[n - 1], fuel);
    let rest = expand_list(types, ps, n - 1, fuel);
    append_strings(&mut res, &rest);
    res
}

/// Adds the domain's constants to the objects, and to every object the list
/// of all its types (its own type first, then its supertypes).
pub fn update_objects(problem: Problem, domain: &Domain) -> (res: Problem)
    ensures
        res@.objects == updated_objects(problem@.objects, domain@.constants, domain@.types),
        res@.name == problem@.name,
        res@.domain == problem@.domain,
        res@.htn == problem@.htn,
        res@.state == problem@.state,
        res@.goal == problem@.goal,
{
    let mut problem = problem;
    let ghost original = problem@;
    let ghost types = domain.types.deep_view();
    if let Some(constants) = &domain.constants {
        let ghost cv = constants.deep_view();
        let mut c: usize = 0;
        while c < constants.len()
            invariant
                c <= constants.len(),
                cv == constants.deep_view(),
                problem@.objects == original.objects + cv.take(c as int).map_values(|p: (Str, Str)| (p.0, p.1, Seq::<Str>::empty())),
                problem@.name == original.name,
                problem@.domain == original.domain,
                problem@.htn == original.htn,
                problem@.state == original.state,
                problem@.goal == original.goal,
            decreases constants.len() - c,
        {
            assert(cv[c as int] == constants@[c as int].deep_view());
            let ghost before = problem.objects.deep_view();
            let no_types: Vec<String> = Vec::new();
            assert(no_types.deep_view() =~= Seq::<Str>::empty());
            problem.objects.push((constants[c].0.clone(), constants[c].1.clone(), no_types));
            assert(problem.objects.deep_view() =~= before.push((cv[c as int].0, cv[c as int].1, Seq::<Str>::empty())));
            assert(cv.take(c + 1).map_values(|p: (Str, Str)| (p.0, p.1, Seq::<Str>::empty()))
                =~= cv.take(c as int).map_values(|p: (Str, Str)| (p.0, p.1, Seq::<Str>::empty())).push((cv[c as int].0, cv[c as int].1, Seq::<Str>::empty())));
            c = c + 1;
        }
        assert(cv.take(c as int) =~= cv);
    }
    let ghost all = problem.objects.deep_view();
    assert(all == match domain@.constants {
        Some(c) => original.objects + c.map_values(|p: (Str, Str)| (p.0, p.1, Seq::<Str>::empty())),
        None => original.objects,
    });
    let mut new_object_list: Vec<Object> = Vec::new();
    let mut i: usize = 0;
    while i < problem.objects.len()
        invariant
            i <= problem.objects.len(),
            all == problem.objects.deep_view(),
            types == domain.types.deep_view(),
            new_object_list.deep_view() == all.take(i as int).map_values(|o: (Str, Str, Seq<Str>)| typed_object(types, o)),
        decreases problem.objects.len() - i,
    {
        let object = &problem.objects[i];
        assert(all[i as int] == object.deep_view());
        let mut final_subtype_list: Vec<String> = Vec::new();
        final_subtype_list.push(object.1.clone());
        let supers = expand_type(&domain.types, &object.1, domain.types.len());
        append_strings(&mut final_subtype_list, &supers);
        assert(final_subtype_list.deep_view() =~= seq![object.1@] + supertypes(types, object.1@, types.len()));
        let ghost before = new_object_list.deep_view();
        new_object_list.push((object.0.clone(), object.1.clone(), final_subtype_list));
        assert(new_object_list.deep_view() =~= before.push(typed_object(types, all[i as int])));
        assert(all.take(i + 1).map_values(|o: (Str, Str, Seq<Str>)| typed_object(types, o))
            =~= all.take(i as int).map_values(|o: (Str, Str, Seq<Str>)| typed_object(types, o)).push(typed_object(types, all[i as int])));
        i = i + 1;
    }
    assert(all.take(i as int) =~= all);
    problem.objects = new_object_list;
    problem
}

// ------------------------------------------------------------------------

/// The names of the objects that belong to type `t`.
pub open spec fn objects_of_type(objects: Seq<(Str, Str, Seq<Str>)>, t: Str) -> Seq<Str>
    decreases objects.len(),
{
    if objects.len() == 0 {
        Seq::empty()
    } else {
        let rest = objects_of_type(objects.drop_last(), t);
        if objects.last().2.contains(t) { rest.push(objects.last().0) } else { rest }
    }
}

/// `v` once for every object named `v` that belongs to type `t`.
pub open spec fn value_hits(v: Str, objects: Seq<(Str, Str, Seq<Str>)>, t: Str) -> Seq<Str>
    decreases objects.len(),
{
    if objects.len() == 0 {
        Seq::empty()
    } else {
        let rest = value_hits(v, objects.drop_last(), t);
        if v == objects.last().0 && objects.last().2.contains(t) { rest.push(v) } else { rest }
    }
}

/// The values of a list that name objects of type `t`.
pub open spec fn values_of_type(vals: Seq<Str>, objects: Seq<(Str, Str, Seq<Str>)>, t: Str) -> Seq<Str>
    decreases vals.len(),
{
    if vals.len() == 0 {
        Seq::empty()
    } else {
        values_of_type(vals.drop_last(), objects, t) + value_hits(vals.last(), objects, t)
    }
}

/// The entries that a method's parameter gets from the task's arguments at
/// positions below `n`: one for every position where the task names the parameter.
pub open spec fn task_entries(name: Str, typ: Str, task_args: Seq<Str>, old: RelVarsModel, objects: Seq<(Str, Str, Seq<Str>)>, n: int) -> RelVarsModel
    decreases n,
{
    if n <= 0 {
        Seq::empty()
    } else {
        let rest = task_entries(name, typ, task_args, old, objects, n - 1);
        let lc = n - 1;
        if name == task_args[lc] {
            if old[lc].1 != typ {
                rest.push((name, typ, values_of_type(old[lc].2, objects, typ)))
            } else {
                rest.push((name, typ, old[lc].2))
            }
        } else {
            rest
        }
    }
}

/// The entries of one parameter: those given by the task, or when the task
/// does not name it, one entry with every object of its type.
pub open spec fn param_entries(p: crate::datastructures::domain::ArgumentModel, task_args: Seq<Str>, old: RelVarsModel, objects: Seq<(Str, Str, Seq<Str>)>) -> RelVarsModel {
    if task_args.contains(p.name) {
        task_entries(p.name, p.object_type, task_args, old, objects, task_args.len() as int)
    } else {
        seq![(p.name, p.object_type, objects_of_type(objects, p.object_type))]
    }
}

/// The entries of the first `n` parameters of a method, before duplicates are merged.
pub open spec fn method_entries(m: MethodModel, old: RelVarsModel, objects: Seq<(Str, Str, Seq<Str>)>, n: int) -> RelVarsModel
    decreases n,
{
    if n <= 0 {
        Seq::empty()
    } else {
        method_entries(m, old, objects, n - 1) + param_entries(m.parameters[n - 1], m.task.1, old, objects)
    }
}

fn objects_of(objects: &Vec<Object>, t: &String) -> (res: Vec<String>)
    ensures
        res.deep_view() == objects_of_type(objects.deep_view(), t@),
{
    let ghost ov = objects.deep_view();
    let mut res: Vec<String> = Vec::new();
    let mut i: usize = 0;
    while i < objects.len()
        invariant
            i <= objects.len(),
            ov == objects.deep_view(),
            res.deep_view() == objects_of_type(ov.take(i as int), t@),
        decreases objects.len() - i,
    {
        assert(ov[i as int] == objects@[i as int].deep_view());
        assert(ov.take(i + 1).drop_last() =~= ov.take(i as int));
        let ghost before = res.deep_view();
        if contains_string(&objects[i].2, t) {
            res.push(objects[i].0.clone());
            assert(res.deep_view() =~= before.push(ov[i as int].0));
        }
        i = i + 1;
    }
    assert(ov.take(i as int) =~= ov);
    res
}

fn typed_values(vals: &Vec<String>, objects: &Vec<Object>, t: &String) -> (res: Vec<String>)
    ensures
        res.deep_view() == values_of_type(vals.deep_view(), objects.deep_view(), t@),
{
    let ghost ov = objects.deep_view();
    let ghost vv = vals.deep_view();
    let mut res: Vec<String> = Vec::new();
    let mut a: usize = 0;
    while a < vals.len()
        invariant
            a <= vals.len(),
            ov == objects.deep_view(),
            vv == vals.deep_view(),
            res.deep_view() == values_of_type(vv.take(a as int), ov, t@),
        decreases vals.len() - a,
    {
        let var = &vals[a];
        assert(vv[a as int] == var@);
        assert(vv.take(a + 1).drop_last() =~= vv.take(a as int));
        let ghost base = res.deep_view();
        let mut i: usize = 0;
        while i < objects.len()
            invariant
                a < vals.len(),
                i <= objects.len(),
                res.deep_view() == base + value_hits(var@, ov.take(i as int), t@),
            decreases objects.len() - i,
        {
            assert(ov[i as int] == objects@[i as int].deep_view());
            assert(ov.take(i + 1).drop_last() =~= ov.take(i as int));
            let ghost before = res.deep_view();
            if *var == objects[i].0 && contains_string(&objects[i].2, t) {
                res.push(var.clone());
                assert(res.deep_view() =~= before.push(var@));
            }
            assert(res.deep_view() =~= base + value_hits(var@, ov.take(i + 1), t@));
            i = i + 1;
        }
        assert(ov.take(i as int) =~= ov);
        a = a + 1;
    }
    assert(vv.take(a as int) =~= vv);
    res
}

/// The relevant variables of a method given those of its task (what
/// `update_relevant_variables` returns).
pub open spec fn updated_relvars(problem: ProblemModel, m: MethodModel, old: RelVarsModel) -> RelVarsModel {
    let e = method_entries(m, old, problem.objects, m.parameters.len() as int);
    dedup_merge(e, e.len() as int)
}

/// Updates the relevant variables of a method from the values its task was
/// given: a parameter that the task names takes the task's values (only those
/// of the parameter's type, when the types differ), any other parameter every
/// object of its type; parameters of the same name are then merged.
pub fn update_relevant_variables(problem: &Problem, method: &Method, old_relevant_variables: &RelVars) -> (res: RelVars)
    requires
        method.task.1.len() <= old_relevant_variables.len(),
    ensures
        merged(method_entries(method@, old_relevant_variables.deep_view(), problem@.objects, method@.parameters.len() as int), res.deep_view()),
        res.deep_view() == updated_relvars(problem@, method@, old_relevant_variables.deep_view()),
{
    let ghost old = old_relevant_variables.deep_view();
    let ghost objects = problem.objects.deep_view();
    let ghost m = method@;
    let mut updated_relevant_parameters: RelVars = Vec::new();
    let mut p: usize = 0;
    while p < method.parameters.len()
        invariant
            p <= method.parameters.len(),
            m == method@,
            old == old_relevant_variables.deep_view(),
            objects == problem.objects.deep_view(),
            method.task.1.len() <= old_relevant_variables.len(),
            updated_relevant_parameters.deep_view() == method_entries(m, old, objects, p as int),
        decreases method.parameters.len() - p,
    {
        let param = &method.parameters[p];
        assert(m.parameters[p as int] == param@);
        let ghost base = updated_relevant_parameters.deep_view();
        let ghost targs = m.task.1;
        let mut found_in_task = false;
        let mut looking_count: usize = 0;
        while looking_count < method.task.1.len()
            invariant
                p < method.parameters.len(),
                m == method@,
                targs == m.task.1,
                looking_count <= method.task.1.len(),
                method.task.1.len() <= old_relevant_variables.len(),
                old == old_relevant_variables.deep_view(),
                objects == problem.objects.deep_view(),
                updated_relevant_parameters.deep_view() == base + task_entries(param.name@, param.object_type@, targs, old, objects, looking_count as int),
                found_in_task == targs.take(looking_count as int).contains(param.name@),
            decreases method.task.1.len() - looking_count,
        {
            let task_param = &method.task.1[looking_count];
            assert(targs[looking_count as int] == task_param@);
            assert(old[looking_count as int] == old_relevant_variables@[looking_count as int].deep_view());
            proof { crate::text::lemma_take_one_more(targs, looking_count as int); }
            proof { crate::text::lemma_push_contains(targs.take(looking_count as int), task_param@, param.name@); }
            let ghost before = updated_relevant_parameters.deep_view();
            if param.name == *task_param {
                let old_entry = &old_relevant_variables[looking_count];
                if old_entry.1 != param.object_type {
                    let vals = typed_values(&old_entry.2, &problem.objects, &param.object_type);
                    updated_relevant_parameters.push((param.name.clone(), param.object_type.clone(), vals));
                    assert(updated_relevant_parameters.deep_view() =~= before.push(
                        (param.name@, param.object_type@, values_of_type(old[looking_count as int].2, objects, param.object_type@))));
                } else {
                    updated_relevant_parameters.push((param.name.clone(), param.object_type.clone(), clone_strings(&old_entry.2)));
                    assert(updated_relevant_parameters.deep_view() =~= before.push(
                        (param.name@, param.object_type@, old[looking_count as int].2)));
                }
                found_in_task = true;
            }
            assert(updated_relevant_parameters.deep_view() =~= base + task_entries(param.name@, param.object_type@, targs, old, objects, looking_count + 1));
            looking_count = looking_count + 1;
        }
        assert(targs.take(looking_count as int) =~= targs);
        if !found_in_task {
            let var_list = objects_of(&problem.objects, &param.object_type);
            let ghost before = updated_relevant_parameters.deep_view();
            updated_relevant_parameters.push((param.name.clone(), param.object_type.clone(), var_list));
            assert(updated_relevant_parameters.deep_view() =~= before.push((param.name@, param.object_type@, objects_of_type(objects, param.object_type@))));
            assert(task_entries(param.name@, param.object_type@, targs, old, objects, targs.len() as int) =~= Seq::<(Str, Str, Seq<Str>)>::empty()) by {
                lemma_task_entries_empty(param.name@, param.object_type@, targs, old, objects, targs.len() as int);
            }
        }
        assert(updated_relevant_parameters.deep_view() =~= method_entries(m, old, objects, p + 1));
        p = p + 1;
    }
    check_duplicates(&mut updated_relevant_parameters)
}

proof fn lemma_task_entries_empty(name: Str, typ: Str, task_args: Seq<Str>, old: RelVarsModel, objects: Seq<(Str, Str, Seq<Str>)>, n: int)
    requires
        0 <= n <= task_args.len(),
        !task_args.take(n).contains(name),
    ensures
        task_entries(name, typ, task_args, old, objects, n) == Seq::<(Str, Str, Seq<Str>)>::empty(),
    decreases n,
{
    if n > 0 {
        assert(task_args.take(n)[n - 1] == task_args[n - 1]);
        assert(!task_args.take(n - 1).contains(name)) by {
            if task_args.take(n - 1).contains(name) {
                let k = choose|k: int| 0 <= k < n - 1 && #[trigger] task_args.take(n - 1)[k] == name;
                assert(task_args.take(n)[k] == name);
            }
        }
        lemma_task_entries_empty(name, typ, task_args, old, objects, n - 1);
    }
}


// ------------------------------------------------------------------------
// Handing relevant variables back to the calling method.

/// The entries for one argument of the task a method refines: every relevant
/// variable among the first `n` with its name, renamed to the next parameter
/// of the calling method's subtask (counting from `start`).
pub open spec fn arg_matches(arg: Str, rv: RelVarsModel, sparams: Seq<ArgumentModel>, start: int, n: int) -> RelVarsModel
    decreases n,
{
    if n <= 0 {
        Seq::empty()
    } else {
        let r = arg_matches(arg, rv, sparams, start, n - 1);
        if rv[n - 1].0 == arg { r.push((sparams[start + r.len()].name, rv[n - 1].1, rv[n - 1].2)) } else { r }
    }
}

/// The entries for the first `n` arguments of the task a method refines.
pub open spec fn task_matches(args: Seq<Str>, rv: RelVarsModel, sparams: Seq<ArgumentModel>, n: int) -> RelVarsModel
    decreases n,
{
    if n <= 0 {
        Seq::empty()
    } else {
        let r = task_matches(args, rv, sparams, n - 1);
        r + arg_matches(args[n - 1], rv, sparams, r.len() as int, rv.len() as int)
    }
}

/// The number of relevant variables among the first `n` with a given name.
pub open spec fn name_count(arg: Str, rv: RelVarsModel, n: int) -> nat
    decreases n,
{
    if n <= 0 { 0 } else { name_count(arg, rv, n - 1) + (if rv[n - 1].0 == arg { 1nat } else { 0nat }) }
}

/// The number of relevant variables named like the first `n` arguments, counted per argument.
pub open spec fn task_match_count(args: Seq<Str>, rv: RelVarsModel, n: int) -> nat
    decreases n,
{
    if n <= 0 { 0 } else { task_match_count(args, rv, n - 1) + name_count(args[n - 1], rv, rv.len() as int) }
}

/// The calling method's relevant variables, each replaced by the first
/// handed-back entry of the same name where there is one.
pub open spec fn overridden(calling: RelVarsModel, back: RelVarsModel) -> RelVarsModel {
    Seq::new(calling.len(), |k: int| if has_name(back, calling[k].0) { back[first_named(back, calling[k].0)] } else { calling[k] })
}

/// The relevant variables that a finished method hands back to its caller.
pub open spec fn handed_back(m: MethodModel, rv: RelVarsModel, calling: RelVarsModel, sparams: Seq<ArgumentModel>) -> RelVarsModel {
    overridden(calling, task_matches(m.task.1, rv, sparams, m.task.1.len() as int))
}

proof fn lemma_arg_matches_len(arg: Str, rv: RelVarsModel, sparams: Seq<ArgumentModel>, start: int, n: int)
    ensures
        arg_matches(arg, rv, sparams, start, n).len() == name_count(arg, rv, n),
    decreases n,
{
    if n > 0 {
        lemma_arg_matches_len(arg, rv, sparams, start, n - 1);
    }
}

proof fn lemma_task_matches_len(args: Seq<Str>, rv: RelVarsModel, sparams: Seq<ArgumentModel>, n: int)
    ensures
        task_matches(args, rv, sparams, n).len() == task_match_count(args, rv, n),
    decreases n,
{
    if n > 0 {
        lemma_task_matches_len(args, rv, sparams, n - 1);
        let r = task_matches(args, rv, sparams, n - 1);
        lemma_arg_matches_len(args[n - 1], rv, sparams, r.len() as int, rv.len() as int);
    }
}

proof fn lemma_task_match_count_mono(args: Seq<Str>, rv: RelVarsModel, n: int, m: int)
    requires
        n <= m,
    ensures
        task_match_count(args, rv, n) <= task_match_count(args, rv, m),
    decreases m - n,
{
    if n < m {
        lemma_task_match_count_mono(args, rv, n, m - 1);
    }
}

fn task_matches_exec(args: &Vec<String>, rv: &RelVars, sparams: &Vec<Argument>) -> (res: RelVars)
    requires
        task_match_count(args.deep_view(), rv.deep_view(), args.len() as int) <= sparams.len(),
    ensures
        res.deep_view() == task_matches(args.deep_view(), rv.deep_view(), sparams.deep_view(), args.len() as int),
{
    let ghost a = args.deep_view();
    let ghost s = rv.deep_view();
    let ghost sp = sparams.deep_view();
    let mut res: RelVars = Vec::new();
    let mut k: usize = 0;
    while k < args.len()
        invariant
            a == args.deep_view(),
            s == rv.deep_view(),
            sp == sparams.deep_view(),
            task_match_count(a, s, a.len() as int) <= sparams.len(),
            k <= args.len(),
            res.deep_view() == task_matches(a, s, sp, k as int),
        decreases args.len() - k,
    {
        assert(a[k as int] == args@[k as int]@);
        let ghost start = res.deep_view();
        proof {
            lemma_task_matches_len(a, s, sp, k as int);
            lemma_task_match_count_mono(a, s, k as int + 1, a.len() as int);
        }
        let mut j: usize = 0;
        while j < rv.len()
            invariant
                a == args.deep_view(),
                s == rv.deep_view(),
                sp == sparams.deep_view(),
                k < args.len(),
                start.len() + name_count(a[k as int], s, s.len() as int) <= sparams.len(),
                j <= rv.len(),
                res.deep_view() == start + arg_matches(a[k as int], s, sp, start.len() as int, j as int),
            decreases rv.len() - j,
        {
            assert(s[j as int] == rv@[j as int].deep_view());
            if rv[j].0 == args[k] {
                proof {
                    lemma_arg_matches_len(a[k as int], s, sp, start.len() as int, j as int);
                    lemma_name_count_mono(a[k as int], s, j as int + 1, s.len() as int);
                }
                let i = res.len();
                assert(sp[i as int] == sparams@[i as int].deep_view());
                let ghost before = res.deep_view();
                res.push((sparams[i].name.clone(), rv[j].1.clone(), clone_strings(&rv[j].2)));
                assert(res.deep_view() =~= before.push((sp[i as int].name, s[j as int].1, s[j as int].2)));
            }
            j = j + 1;
        }
        k = k + 1;
    }
    res
}

proof fn lemma_name_count_mono(arg: Str, rv: RelVarsModel, n: int, m: int)
    requires
        n <= m,
    ensures
        name_count(arg, rv, n) <= name_count(arg, rv, m),
    decreases m - n,
{
    if n < m {
        lemma_name_count_mono(arg, rv, n, m - 1);
    }
}

/// The calling method's relevant variables with the handed-back values.
pub fn override_relvars(calling: &RelVars, back: &RelVars) -> (res: RelVars)
    ensures
        res.deep_view() == overridden(calling.deep_view(), back.deep_view()),
{
    let ghost c = calling.deep_view();
    let ghost b = back.deep_view();
    let ghost target = overridden(c, b);
    let mut res: RelVars = Vec::new();
    let mut k: usize = 0;
    while k < calling.len()
        invariant
            c == calling.deep_view(),
            b == back.deep_view(),
            target == overridden(c, b),
            k <= calling.len(),
            res.deep_view() == target.take(k as int),
        decreases calling.len() - k,
    {
        assert(c[k as int] == calling@[k as int].deep_view());
        let mut x: usize = 0;
        while x < back.len() && back[x].0 != calling[k].0
            invariant
                b == back.deep_view(),
                c == calling.deep_view(),
                k < calling.len(),
                x <= back.len(),
                forall|q: int| 0 <= q < x ==> (#[trigger] b[q]).0 != c[k as int].0,
            decreases back.len() - x,
        {
            assert(b[x as int] == back@[x as int].deep_view());
            x = x + 1;
        }
        let ghost before = res.deep_view();
        if x < back.len() {
            assert(b[x as int] == back@[x as int].deep_view());
            proof { lemma_first_named(b, c[k as int].0, x as int); }
            res.push((back[x].0.clone(), back[x].1.clone(), clone_strings(&back[x].2)));
            assert(res.deep_view() =~= before.push(target[k as int]));
        } else {
            assert(!has_name(b, c[k as int].0));
            res.push((calling[k].0.clone(), calling[k].1.clone(), clone_strings(&calling[k].2)));
            assert(res.deep_view() =~= before.push(target[k as int]));
        }
        assert(target.take(k + 1) =~= target.take(k as int).push(target[k as int]));
        k = k + 1;
    }
    assert(target.take(k as int) =~= target);
    res
}

/// The inputs on which a finished method can hand its variables back: the
/// call stack has a caller at a subtask whose parameters suffice for the
/// relevant variables named like the task's arguments.
pub open spec fn hand_back_possible(m: MethodModel, rv: RelVarsModel, called: crate::datastructures::node::CalledModel) -> bool {
    &&& called.1.len() > 0
    &&& called.2.len() > 0
    &&& 1 <= called.2.last() <= called.1.last().0.subtasks.len()
    &&& task_match_count(m.task.1, rv, m.task.1.len() as int)
        <= subtask_params(called.1.last().0.subtasks[called.2.last() - 1]).len()
}

/// The node after a finished method hands its variables back to its caller
/// (`update_vars_for_called_method`).
pub open spec fn returned_to_caller(n: NodeModel, m: MethodModel, rv: RelVarsModel) -> NodeModel {
    let c = n.called;
    let caller = c.1.last();
    NodeModel {
        subtask_queue: n.subtask_queue.push((SubtaskTypesModel::Method(caller.0),
            handed_back(m, rv, caller.1, subtask_params(caller.0.subtasks[c.2.last() - 1])))),
        called: (c.0, c.1.drop_last(), c.2),
        passing_preconditions: caller.2,
        ..n
    }
}

/// The partial node after a finished method hands its variables back to its
/// caller (`update_vars_for_called_method_partial`).
pub open spec fn returned_to_caller_partial(n: PartialNodeModel, m: MethodModel, rv: RelVarsModel, c: crate::datastructures::node::CalledModel, tried: int) -> PartialNodeModel {
    let caller = c.1.last();
    PartialNodeModel {
        subtask_queue: n.subtask_queue.update(tried, (SubtaskTypesModel::Method(caller.0),
            handed_back(m, rv, caller.1, subtask_params(caller.0.subtasks[c.2.last() - 1])),
            (c.0, c.1.drop_last(), c.2), caller.2)),
        original_state: caller.3,
        ..n
    }
}

/// Updates the relevant variables of the method that called the current
/// task: the caller goes back onto the subtask queue with the values its
/// variables got, with its own passed-on preconditions.
pub fn update_vars_for_called_method(current_node: Node, method: &Method, relevant_variables: &RelVars) -> (res: Node)
    requires
        hand_back_possible(method@, relevant_variables.deep_view(), current_node@.called),
    ensures
        res@ == returned_to_caller(current_node@, method@, relevant_variables.deep_view()),
{
    let mut current_node = current_node;
    let ghost c = current_node@.called;
    let ghost n0 = current_node@;
    let (calling_method, calling_relevant_vars, called_passing_precon, _calling_state) = current_node.called.1.pop().unwrap();
    assert(c.1.last() == (calling_method@, calling_relevant_vars.deep_view(), called_passing_precon.deep_view(), _calling_state.deep_view()));
    let idx = current_node.called.2[current_node.called.2.len() - 1];
    let subtask = &calling_method.subtasks[idx - 1];
    assert(calling_method@.subtasks[idx - 1] == subtask.deep_view());
    let sparams = match &subtask.0 {
        crate::datastructures::domain::MethodSubtask::Task(t) => &t.parameters,
        crate::datastructures::domain::MethodSubtask::Action(a) => &a.parameters,
    };
    assert(sparams.deep_view() == subtask_params(subtask.deep_view()));
    let back = task_matches_exec(&method.task.1, relevant_variables, sparams);
    let new_new = override_relvars(&calling_relevant_vars, &back);
    let ghost q0 = current_node.subtask_queue.deep_view();
    current_node.subtask_queue.push((SubtaskTypes::Method(calling_method), new_new));
    assert(current_node.subtask_queue.deep_view() =~= q0.push((SubtaskTypesModel::Method(c.1.last().0), overridden(c.1.last().1, back.deep_view()))));
    current_node.passing_preconditions = called_passing_precon;
    assert(current_node.called.1.deep_view() =~= c.1.drop_last());
    assert(current_node@.called == (c.0, c.1.drop_last(), c.2));
    current_node
}

/// Updates the relevant variables of the method that called the current
/// task, in the partially ordered search: the tried entry of the queue
/// becomes the caller with the values its variables got, its call stack
/// without it and its passed-on preconditions; the caller's state becomes
/// the node's original state.
pub fn update_vars_for_called_method_partial(current_node: PartialNode, method: &Method, relevant_variables: &RelVars, called: Called, _passing_preconditions: Vec<Precondition>, tried_count: usize) -> (res: PartialNode)
    requires
        hand_back_possible(method@, relevant_variables.deep_view(), called.deep_view()),
        tried_count < current_node.subtask_queue.len(),
    ensures
        res@ == returned_to_caller_partial(current_node@, method@, relevant_variables.deep_view(), called.deep_view(), tried_count as int),
{
    let mut current_node = current_node;
    let mut called = called;
    let ghost c = called.deep_view();
    let (calling_method, calling_relevant_vars, called_passing_precon, calling_state) = called.1.pop().unwrap();
    assert(c.1.last() == (calling_method@, calling_relevant_vars.deep_view(), called_passing_precon.deep_view(), calling_state.deep_view()));
    let idx = called.2[called.2.len() - 1];
    let subtask = &calling_method.subtasks[idx - 1];
    assert(calling_method@.subtasks[idx - 1] == subtask.deep_view());
    let sparams = match &subtask.0 {
        crate::datastructures::domain::MethodSubtask::Task(t) => &t.parameters,
        crate::datastructures::domain::MethodSubtask::Action(a) => &a.parameters,
    };
    assert(sparams.deep_view() == subtask_params(subtask.deep_view()));
    let back = task_matches_exec(&method.task.1, relevant_variables, sparams);
    let new_new = override_relvars(&calling_relevant_vars, &back);
    assert(called.1.deep_view() =~= c.1.drop_last());
    assert(called.deep_view() == (c.0, c.1.drop_last(), c.2));
    let ghost q0 = current_node.subtask_queue.deep_view();
    current_node.subtask_queue.set(tried_count, (SubtaskTypes::Method(calling_method), new_new, called, called_passing_precon));
    assert(current_node.subtask_queue.deep_view() =~= q0.update(tried_count as int, (SubtaskTypesModel::Method(c.1.last().0),
        overridden(c.1.last().1, back.deep_view()), (c.0, c.1.drop_last(), c.2), c.1.last().2)));
    current_node.original_state = calling_state;
    current_node
}

} // verus!
