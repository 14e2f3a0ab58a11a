//! Preconditions of a method that are passed on to its subtasks.
use vstd::prelude::*;
use crate::datastructures::domain::{Str, Argument, ArgumentModel, Method, MethodModel, MethodSubtask, MethodSubtaskModel, Precondition, PreconditionModel, clone_precondition};
use crate::datastructures::node::{Called, CalledModel, RelVars, RelVarsModel};
use crate::datastructures::problem::{Problem, ProblemModel};
use crate::toolbox::relvars::{has_name, first_named};
use crate::toolbox::precondition::{names_distinct, precondition_checkable, precondition_holds, check_precondition};

verus! {

/// The parameters of a method's subtask.
pub open spec fn subtask_params(st: (MethodSubtaskModel, Seq<ArgumentModel>)) -> Seq<ArgumentModel> {
    match st.0 {
        MethodSubtaskModel::Task(t) => t.parameters,
        MethodSubtaskModel::Action(a) => a.parameters,
    }
}

fn subtask_parameters(st: &(MethodSubtask, Vec<Argument>)) -> (res: &Vec<Argument>)
    ensures
        res.deep_view() == subtask_params(st.deep_view()),
{
    match &st.0 {
        MethodSubtask::Task(t) => &t.parameters,
        MethodSubtask::Action(a) => &a.parameters,
    }
}

/// The names that the callee's parameters called `p` get: for every
/// position among the first `n` where the subtask's parameter is `p`, the
/// name of the callee's parameter at that position.
pub open spec fn renamed_arg(p: Str, sparams: Seq<ArgumentModel>, params: Seq<ArgumentModel>, n: int) -> Seq<Str>
    decreases n,
{
    if n <= 0 {
        Seq::empty()
    } else {
        let r = renamed_arg(p, sparams, params, n - 1);
        if sparams[n - 1].name == p { r.push(params[n - 1].name) } else { r }
    }
}

/// The renamed arguments of a precondition, one argument after another.
pub open spec fn renamed_args(args: Seq<Str>, sparams: Seq<ArgumentModel>, params: Seq<ArgumentModel>) -> Seq<Str>
    decreases args.len(),
{
    if args.len() == 0 {
        Seq::empty()
    } else {
        renamed_args(args.drop_last(), sparams, params) + renamed_arg(args.last(), sparams, params, sparams.len() as int)
    }
}

/// A passed-on precondition in the names of the callee's parameters.
pub open spec fn renamed_precondition(p: PreconditionModel, sparams: Seq<ArgumentModel>, params: Seq<ArgumentModel>) -> PreconditionModel {
    (p.0, p.1, renamed_args(p.2, sparams, params), p.3)
}

/// The subtask that the innermost calling method is at.
pub open spec fn current_subtask(called: CalledModel) -> (MethodSubtaskModel, Seq<ArgumentModel>) {
    called.1.last().0.subtasks[called.2.last() - 1]
}

/// The inputs on which the call stack names a current subtask whose
/// parameters the callee's parameters cover.
pub open spec fn renaming_possible(called: CalledModel, params: Seq<ArgumentModel>) -> bool {
    &&& called.1.len() > 0
    &&& called.2.len() > 0
    &&& 1 <= called.2.last() <= called.1.last().0.subtasks.len()
    &&& params.len() >= subtask_params(current_subtask(called)).len()
}

fn renamed_arg_exec(p: &String, sparams: &Vec<Argument>, params: &Vec<Argument>, out: &mut Vec<String>)
    requires
        params.len() >= sparams.len(),
    ensures
        final(out).deep_view() == old(out).deep_view() + renamed_arg(p@, sparams.deep_view(), params.deep_view(), sparams.len() as int),
{
    let ghost sp = sparams.deep_view();
    let ghost pp = params.deep_view();
    let ghost start = out.deep_view();
    let mut j: usize = 0;
    assert(start + renamed_arg(p@, sp, pp, 0) =~= start);
    while j < sparams.len()
        invariant
            sp == sparams.deep_view(),
            pp == params.deep_view(),
            params.len() >= sparams.len(),
            j <= sparams.len(),
            out.deep_view() == start + renamed_arg(p@, sp, pp, j as int),
        decreases sparams.len() - j,
    {
        assert(sp[j as int] == sparams@[j as int].deep_view());
        assert(pp[j as int] == params@[j as int].deep_view());
        if sparams[j].name == *p {
            let ghost before = out.deep_view();
            out.push(params[j].name.clone());
            assert(out.deep_view() =~= before.push(pp[j as int].name));
            assert(start + renamed_arg(p@, sp, pp, j + 1) =~= (start + renamed_arg(p@, sp, pp, j as int)).push(pp[j as int].name));
        }
        j = j + 1;
    }
}

/// Update passing preconditions: rename the arguments of the passed-on
/// preconditions from the calling method's names to the callee's parameters.
pub fn update_passing_precondition(called: &Called, passing_preconditions: &Vec<Precondition>, parameters: &Vec<Argument>) -> (res: Vec<Precondition>)
    requires
        passing_preconditions.len() > 0 ==> renaming_possible(called.deep_view(), parameters.deep_view()),
    ensures
        res.len() == passing_preconditions.len(),
        forall|k: int| 0 <= k < res.len() ==> #[trigger] res.deep_view()[k] == renamed_precondition(passing_preconditions.deep_view()[k],
            subtask_params(current_subtask(called.deep_view())), parameters.deep_view()),
{
    let mut new_passing_precon: Vec<Precondition> = Vec::new();
    if passing_preconditions.len() == 0 {
        return new_passing_precon;
    }
    let ghost cv = called.deep_view();
    let ghost pl = passing_preconditions.deep_view();
    let ghost pp = parameters.deep_view();
    let caller = &called.1[called.1.len() - 1];
    let idx = called.2[called.2.len() - 1];
    assert(cv.1.last() == caller.deep_view());
    assert(cv.2.last() == idx);
    let subtask = &caller.0.subtasks[idx - 1];
    assert(current_subtask(cv) == subtask.deep_view());
    let sparams = subtask_parameters(subtask);
    let ghost sp = sparams.deep_view();
    let mut k: usize = 0;
    while k < passing_preconditions.len()
        invariant
            pl == passing_preconditions.deep_view(),
            pp == parameters.deep_view(),
            sp == sparams.deep_view(),
            sp == subtask_params(current_subtask(cv)),
            cv == called.deep_view(),
            parameters.len() >= sparams.len(),
            k <= passing_preconditions.len(),
            new_passing_precon.len() == k,
            forall|q: int| 0 <= q < k ==> #[trigger] new_passing_precon.deep_view()[q] == renamed_precondition(pl[q], sp, pp),
        decreases passing_preconditions.len() - k,
    {
        let precon = &passing_preconditions[k];
        assert(pl[k as int] == precon.deep_view());
        let ghost a = precon.2.deep_view();
        let mut args: Vec<String> = Vec::new();
        let mut i: usize = 0;
        assert(args.deep_view() =~= renamed_args(a.take(0), sp, pp));
        while i < precon.2.len()
            invariant
                a == precon.2.deep_view(),
                pp == parameters.deep_view(),
                sp == sparams.deep_view(),
                parameters.len() >= sparams.len(),
                i <= precon.2.len(),
                args.deep_view() == renamed_args(a.take(i as int), sp, pp),
            decreases precon.2.len() - i,
        {
            assert(a.take(i + 1).drop_last() =~= a.take(i as int));
            assert(a[i as int] == precon.2@[i as int]@);
            renamed_arg_exec(&precon.2[i], sparams, parameters, &mut args);
            i = i + 1;
        }
        assert(a.take(i as int) =~= a);
        let copy = clone_precondition(precon);
        let ghost before = new_passing_precon.deep_view();
        new_passing_precon.push((copy.0, copy.1, args, copy.3));
        assert(new_passing_precon.deep_view() =~= before.push(renamed_precondition(pl[k as int], sp, pp)));
        k = k + 1;
    }
    new_passing_precon
}

/// Whether the relevant variable named `name` (the first one) has exactly one value.
pub open spec fn single_valued(name: Str, rv: RelVarsModel) -> bool {
    has_name(rv, name) && rv[first_named(rv, name)].2.len() == 1
}

fn value_length_is_one(relvar_name: &String, relvars: &RelVars) -> (res: bool)
    ensures
        res == single_valued(relvar_name@, relvars.deep_view()),
{
    let ghost s = relvars.deep_view();
    let mut j: usize = 0;
    while j < relvars.len()
        invariant
            s == relvars.deep_view(),
            j <= relvars.len(),
            forall|k: int| 0 <= k < j ==> (#[trigger] s[k]).0 != relvar_name@,
        decreases relvars.len() - j,
    {
        assert(s[j as int] == relvars@[j as int].deep_view());
        if relvars[j].0 == *relvar_name {
            proof { crate::toolbox::relvars::lemma_first_named(s, relvar_name@, j as int); }
            return relvars[j].2.len() == 1;
        }
        j = j + 1;
    }
    false
}

/// How many parameters among the first `n` of the subtask are named `p`, counting only when `p` is not settled.
pub open spec fn param_hits(p: Str, sparams: Seq<ArgumentModel>, rv: RelVarsModel, n: int) -> nat
    decreases n,
{
    if n <= 0 {
        0
    } else {
        param_hits(p, sparams, rv, n - 1) + (if sparams[n - 1].name == p && !single_valued(p, rv) { 1nat } else { 0nat })
    }
}

/// The hits of the first `n` arguments of a precondition.
pub open spec fn pass_count(args: Seq<Str>, sparams: Seq<ArgumentModel>, rv: RelVarsModel, n: int) -> nat
    decreases n,
{
    if n <= 0 {
        0
    } else {
        pass_count(args, sparams, rv, n - 1) + param_hits(args[n - 1], sparams, rv, sparams.len() as int)
    }
}

/// Whether a precondition is passed on to a subtask: it does not have exactly
/// one argument, and its arguments are hit by the subtask's parameters, in
/// total as often as it has arguments, counting only variables with more than one value.
pub open spec fn should_pass(p: PreconditionModel, sparams: Seq<ArgumentModel>, rv: RelVarsModel) -> bool {
    p.2.len() != 1 && pass_count(p.2, sparams, rv, p.2.len() as int) == p.2.len()
}

proof fn lemma_pass_count_mono(args: Seq<Str>, sparams: Seq<ArgumentModel>, rv: RelVarsModel, n: int, m: int)
    requires
        n <= m,
    ensures
        pass_count(args, sparams, rv, n) <= pass_count(args, sparams, rv, m),
    decreases m - n,
{
    if n < m {
        lemma_pass_count_mono(args, sparams, rv, n, m - 1);
    }
}

proof fn lemma_param_hits_le(p: Str, sparams: Seq<ArgumentModel>, rv: RelVarsModel, n: int)
    ensures
        param_hits(p, sparams, rv, n) <= if n < 0 { 0 } else { n },
    decreases n,
{
    if n > 0 {
        lemma_param_hits_le(p, sparams, rv, n - 1);
    }
}

fn param_hits_exec(p: &String, sparams: &Vec<Argument>, rv: &RelVars) -> (res: usize)
    ensures
        res == param_hits(p@, sparams.deep_view(), rv.deep_view(), sparams.len() as int),
{
    let ghost sp = sparams.deep_view();
    let settled = value_length_is_one(p, rv);
    let mut c: usize = 0;
    let mut j: usize = 0;
    while j < sparams.len()
        invariant
            sp == sparams.deep_view(),
            settled == single_valued(p@, rv.deep_view()),
            j <= sparams.len(),
            c <= j,
            c == param_hits(p@, sp, rv.deep_view(), j as int),
        decreases sparams.len() - j,
    {
        assert(sp[j as int] == sparams@[j as int].deep_view());
        if sparams[j].name == *p && !settled {
            c = c + 1;
        }
        j = j + 1;
    }
    c
}

// Check if a precondition should be forwarded to a given subtask based on relevant variables
fn precondition_should_be_passed(precondition: &Precondition, subtask: &(MethodSubtask, Vec<Argument>), relevant_variables: &RelVars) -> (res: bool)
    ensures
        res == should_pass(precondition.deep_view(), subtask_params(subtask.deep_view()), relevant_variables.deep_view()),
{
    if precondition.2.len() == 1 {
        return false;
    }
    let sparams = subtask_parameters(subtask);
    let ghost a = precondition.2.deep_view();
    let ghost sp = sparams.deep_view();
    let ghost rv = relevant_variables.deep_view();
    let n = precondition.2.len();
    let mut count: usize = 0;
    let mut i: usize = 0;
    while i < n
        invariant
            a == precondition.2.deep_view(),
            sp == sparams.deep_view(),
            rv == relevant_variables.deep_view(),
            n == precondition.2.len(),
            i <= n,
            count <= n,
            count == pass_count(a, sp, rv, i as int),
        decreases n - i,
    {
        assert(a[i as int] == precondition.2@[i as int]@);
        let h = param_hits_exec(&precondition.2[i], sparams, relevant_variables);
        if h > n - count {
            proof { lemma_pass_count_mono(a, sp, rv, i + 1, n as int); }
            return false;
        }
        count = count + h;
        i = i + 1;
    }
    count == n
}

/// The preconditions among the first `n` that are passed on to the subtask:
/// those of the right kind (a literal, when `literals_only`) that should be
/// passed, and at a later subtask only those that hold now.
pub open spec fn passed_on(pres: Seq<PreconditionModel>, literals_only: bool, sparams: Seq<ArgumentModel>, index: int, rv: RelVarsModel, problem: ProblemModel, n: int) -> Seq<PreconditionModel>
    decreases n,
{
    if n <= 0 {
        Seq::empty()
    } else {
        let r = passed_on(pres, literals_only, sparams, index, rv, problem, n - 1);
        let p = pres[n - 1];
        if (!literals_only || p.0 < 2) && should_pass(p, sparams, rv) && (index == 0 || precondition_holds(p, rv, problem)) {
            r.push(p)
        } else {
            r
        }
    }
}

/// What `decide_passing_preconditions` answers: the method's own literal
/// preconditions that are passed on, then the passed-on preconditions that continue.
pub open spec fn decided_passing(passing: Seq<PreconditionModel>, m: MethodModel, index: int, rv: RelVarsModel, problem: ProblemModel) -> Seq<PreconditionModel> {
    let sparams = subtask_params(m.subtasks[index]);
    let own = match m.precondition {
        Some(ps) => passed_on(ps, true, sparams, index, rv, problem, ps.len() as int),
        None => Seq::empty(),
    };
    own + passed_on(passing, false, sparams, index, rv, problem, passing.len() as int)
}

/// The inputs on which `decide_passing_preconditions` is defined: the
/// subtask exists, and at a later subtask the preconditions it checks can be checked.
pub open spec fn deciding_possible(passing: Seq<PreconditionModel>, m: MethodModel, index: int, rv: RelVarsModel, problem: ProblemModel) -> bool {
    &&& 0 <= index < m.subtasks.len()
    &&& names_distinct(rv)
    &&& index > 0 ==> forall|k: int| 0 <= k < passing.len() ==> precondition_checkable(#[trigger] passing[k], rv, problem.state)
    &&& index > 0 && m.precondition is Some ==> forall|k: int|
        0 <= k < m.precondition.unwrap().len() && m.precondition.unwrap()[k].0 < 2
        ==> precondition_checkable(#[trigger] m.precondition.unwrap()[k], rv, problem.state)
}

fn passed_on_exec(pres: &Vec<Precondition>, literals_only: bool, subtask: &(MethodSubtask, Vec<Argument>), index: usize, relevant_variables: &RelVars, problem: &Problem, out: &mut Vec<Precondition>)
    requires
        names_distinct(relevant_variables.deep_view()),
        index > 0 ==> forall|k: int| 0 <= k < pres.len() && (!literals_only || pres.deep_view()[k].0 < 2)
            ==> precondition_checkable(#[trigger] pres.deep_view()[k], relevant_variables.deep_view(), problem.state.deep_view()),
    ensures
        final(out).deep_view() == old(out).deep_view() + passed_on(pres.deep_view(), literals_only, subtask_params(subtask.deep_view()), index as int,
            relevant_variables.deep_view(), problem@, pres.len() as int),
{
    let ghost pl = pres.deep_view();
    let ghost sp = subtask_params(subtask.deep_view());
    let ghost start = out.deep_view();
    let mut k: usize = 0;
    assert(start + passed_on(pl, literals_only, sp, index as int, relevant_variables.deep_view(), problem@, 0) =~= start);
    while k < pres.len()
        invariant
            pl == pres.deep_view(),
            sp == subtask_params(subtask.deep_view()),
            names_distinct(relevant_variables.deep_view()),
            index > 0 ==> forall|q: int| 0 <= q < pres.len() && (!literals_only || pl[q].0 < 2)
                ==> precondition_checkable(#[trigger] pl[q], relevant_variables.deep_view(), problem.state.deep_view()),
            k <= pres.len(),
            out.deep_view() == start + passed_on(pl, literals_only, sp, index as int, relevant_variables.deep_view(), problem@, k as int),
        decreases pres.len() - k,
    {
        let precon = &pres[k];
        assert(pl[k as int] == precon.deep_view());
        if !literals_only || precon.0 < 2 {
            if precondition_should_be_passed(precon, subtask, relevant_variables) {
                if index > 0 && check_precondition(precon, relevant_variables, problem) {
                    let ghost before = out.deep_view();
                    out.push(clone_precondition(precon));
                    assert(out.deep_view() =~= before.push(pl[k as int]));
                } else if index == 0 {
                    let ghost before = out.deep_view();
                    out.push(clone_precondition(precon));
                    assert(out.deep_view() =~= before.push(pl[k as int]));
                }
            }
        }
        k = k + 1;
    }
}

/// Go through all preconditions and decide which of them are passed to the
/// next subtask of a method: its own literal preconditions, then the
/// preconditions passed on to it.
pub fn decide_passing_preconditions(passing_preconditions: &mut Vec<Precondition>, method: &Method, index: usize, relevant_variables: &RelVars, problem: &Problem) -> (res: Vec<Precondition>)
    requires
        deciding_possible(old(passing_preconditions).deep_view(), method@, index as int, relevant_variables.deep_view(), problem@),
    ensures
        final(passing_preconditions)@ == old(passing_preconditions)@,
        res.deep_view() == decided_passing(old(passing_preconditions).deep_view(), method@, index as int, relevant_variables.deep_view(), problem@),
{
    let mut new_passing_preconditions: Vec<Precondition> = Vec::new();
    let subtask = &method.subtasks[index];
    assert(method@.subtasks[index as int] == subtask.deep_view());
    match &method.precondition {
        Some(precons) => {
            assert(method@.precondition == Some(precons.deep_view()));
            if index > 0 {
                assert forall|k: int| 0 <= k < precons.len() && precons.deep_view()[k].0 < 2
                    implies precondition_checkable(#[trigger] precons.deep_view()[k], relevant_variables.deep_view(), problem.state.deep_view()) by {
                    assert(method@.precondition.unwrap()[k] == precons.deep_view()[k]);
                    assert(problem@.state == problem.state.deep_view());
                }
            }
            passed_on_exec(precons, true, subtask, index, relevant_variables, problem, &mut new_passing_preconditions);
        },
        None => {},
    }
    let ghost own = new_passing_preconditions.deep_view();
    passed_on_exec(passing_preconditions, false, subtask, index, relevant_variables, problem, &mut new_passing_preconditions);
    proof {
        let ms = method@;
        let sparams = subtask_params(ms.subtasks[index as int]);
        let o = match ms.precondition {
            Some(ps) => passed_on(ps, true, sparams, index as int, relevant_variables.deep_view(), problem@, ps.len() as int),
            None => Seq::empty(),
        };
        assert(own =~= Seq::<PreconditionModel>::empty() + o);
    }
    new_passing_preconditions
}

} // verus!
