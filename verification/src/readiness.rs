//! Checks that a step of the search reads nothing that is missing: each
//! decides, for the values at hand, the condition under which an operation
//! of the planner is defined.
use vstd::prelude::*;
use crate::datastructures::domain::{Str, Argument, Method, MethodSubtask, Precondition};
use crate::datastructures::node::{RelVars, RelVarsModel, Called, AppliedFunctions, SubtaskTypes};
use crate::datastructures::problem::Problem;
use crate::text::{is_var, is_variable};
use crate::toolbox::relvars::has_name;
use crate::toolbox::passing_preconditions::{subtask_params, renaming_possible, deciding_possible};
use crate::toolbox::update::{hand_back_possible, task_match_count, name_count};
use crate::perform::{finish_possible, applied_task_name};
use crate::datastructures::domain::{Domain, Task};
use crate::datastructures::node::PartialNode;
use crate::toolbox::nodes::{partial_hashable, partial_entries, partial_scan_stops};
use crate::toolbox::goal_arities_fit;
use crate::toolbox::domain_ops::{has_key, table_filed};
use crate::toolbox::methods::{get_methods, sort_by_subtasks, prioritize_methods};
use crate::perform::partial::htn::partial_htn_possible;
use crate::perform::partial::task::{partial_task_possible, task_args};
use crate::perform::partial::method::{partial_method_possible, entry_relvars, with_own};
use crate::perform::partial::action::{partial_action_possible, action_preconditions, renamed_passing, first_unsettled, lemma_first_unsettled};
use crate::toolbox::precondition::{precon_trimmer, same_names, lemma_same_names_props, lemma_trimmable_same_names};
use crate::toolbox::passing_preconditions::update_passing_precondition;
use crate::datastructures::domain::{Action, clone_preconditions};
use crate::datastructures::node::{clone_relvars, clone_called};
use crate::toolbox::precondition::{names_distinct, all_variables, trimmable, precondition_checkable, arg_value_lists, setup_relvar_indexes};
use crate::datastructures::node::Node;
use crate::toolbox::nodes::nothing_checkable;
use crate::toolbox::{effect_arities_fit, action_would_result_in_nothing};
use crate::toolbox::constraints::check_constraints;
use crate::perform::htn::total_htn_possible;
use crate::perform::method::{total_method_possible, total_entry, total_subtask_entry, find_task, find_action, subtask_name, arg_hits, object_named, find_task_exec, find_action_exec, subtask_entry_exec};
use crate::perform::action::{total_cdcl_possible, total_action_preconditions, changes_nothing};

verus! {

/// Whether no two relevant variables share a name.
pub fn names_distinct_exec(rv: &RelVars) -> (res: bool)
    ensures
        res == names_distinct(rv.deep_view()),
{
    let ghost s = rv.deep_view();
    let mut i: usize = 0;
    while i < rv.len()
        invariant
            s == rv.deep_view(),
            i <= rv.len(),
            forall|a: int, b: int| 0 <= a < b < s.len() && a < i ==> (#[trigger] s[a]).0 != (#[trigger] s[b]).0,
        decreases rv.len() - i,
    {
        let mut j: usize = i + 1;
        while j < rv.len()
            invariant
                s == rv.deep_view(),
                i < rv.len(),
                i < j <= rv.len(),
                forall|a: int, b: int| 0 <= a < b < s.len() && a < i ==> (#[trigger] s[a]).0 != (#[trigger] s[b]).0,
                forall|b: int| i < b < j ==> s[i as int].0 != (#[trigger] s[b]).0,
            decreases rv.len() - j,
        {
            assert(s[i as int] == rv@[i as int].deep_view());
            assert(s[j as int] == rv@[j as int].deep_view());
            if rv[i].0 == rv[j].0 {
                return false;
            }
            j = j + 1;
        }
        i = i + 1;
    }
    true
}

/// Whether every relevant variable is named as a variable.
pub fn all_variables_exec(rv: &RelVars) -> (res: bool)
    ensures
        res == all_variables(rv.deep_view()),
{
    let ghost s = rv.deep_view();
    let mut j: usize = 0;
    while j < rv.len()
        invariant
            s == rv.deep_view(),
            j <= rv.len(),
            forall|q: int| 0 <= q < j ==> is_var(#[trigger] s[q].0),
        decreases rv.len() - j,
    {
        assert(s[j as int] == rv@[j as int].deep_view());
        if !is_variable(&rv[j].0) {
            assert(!is_var(s[j as int].0));
            return false;
        }
        j = j + 1;
    }
    true
}

/// Whether every fact on predicate `name` has at least `n` arguments.
fn facts_have_at_least(state: &Vec<(String, Vec<String>)>, name: &String, n: usize) -> (res: bool)
    ensures
        res == forall|i: int| 0 <= i < state.len() && (#[trigger] state.deep_view()[i]).0 == name@ ==> state.deep_view()[i].1.len() >= n,
{
    let ghost st = state.deep_view();
    let mut i: usize = 0;
    while i < state.len()
        invariant
            st == state.deep_view(),
            i <= state.len(),
            forall|q: int| 0 <= q < i && (#[trigger] st[q]).0 == name@ ==> st[q].1.len() >= n,
        decreases state.len() - i,
    {
        assert(st[i as int] == state@[i as int].deep_view());
        if state[i].0 == *name && state[i].1.len() < n {
            return false;
        }
        i = i + 1;
    }
    true
}

/// Whether every fact on predicate `name` has at most `n` arguments.
fn facts_have_at_most(state: &Vec<(String, Vec<String>)>, name: &String, n: usize) -> (res: bool)
    ensures
        res == forall|i: int| 0 <= i < state.len() && (#[trigger] state.deep_view()[i]).0 == name@ ==> state.deep_view()[i].1.len() <= n,
{
    let ghost st = state.deep_view();
    let mut i: usize = 0;
    while i < state.len()
        invariant
            st == state.deep_view(),
            i <= state.len(),
            forall|q: int| 0 <= q < i && (#[trigger] st[q]).0 == name@ ==> st[q].1.len() <= n,
        decreases state.len() - i,
    {
        assert(st[i as int] == state@[i as int].deep_view());
        if state[i].0 == *name && state[i].1.len() > n {
            return false;
        }
        i = i + 1;
    }
    true
}

fn has_name_exec(rv: &RelVars, name: &String) -> (res: bool)
    ensures
        res == has_name(rv.deep_view(), name@),
{
    let ghost s = rv.deep_view();
    let mut j: usize = 0;
    while j < rv.len()
        invariant
            s == rv.deep_view(),
            j <= rv.len(),
            forall|q: int| 0 <= q < j ==> (#[trigger] s[q]).0 != name@,
        decreases rv.len() - j,
    {
        assert(s[j as int] == rv@[j as int].deep_view());
        if rv[j].0 == *name {
            return true;
        }
        j = j + 1;
    }
    false
}

/// Whether `precon_trimmer` can trim by the precondition.
pub fn trimmable_exec(p: &Precondition, rv: &RelVars, state: &Vec<(String, Vec<String>)>) -> (res: bool)
    ensures
        res == trimmable(p.deep_view(), rv.deep_view(), state.deep_view()),
{
    let ghost pv = p.deep_view();
    if p.0 < 0 || p.0 > 4 {
        return false;
    }
    if p.0 == 0 || p.0 == 1 {
        return facts_have_at_least(state, &p.1, p.2.len());
    }
    if p.0 == 2 || p.0 == 3 {
        let setup = setup_relvar_indexes(&p.2, rv);
        return setup.0.len() >= 2;
    }
    match &p.3 {
        None => false,
        Some(inner) => {
            if inner.1.len() > 1 {
                return false;
            }
            if inner.1.len() == 0 {
                return true;
            }
            let lit = &inner.1[0];
            assert(pv.3.unwrap().1[0] == lit.deep_view());
            let ghost lv = lit.deep_view();
            let mut i: usize = 0;
            while i < lit.2.len()
                invariant
                    lv == lit.deep_view(),
                    pv == p.deep_view(),
                    i <= lit.2.len(),
                    forall|q: int| 0 <= q < i ==> #[trigger] lv.2[q] == pv.3.unwrap().0.0 || has_name(rv.deep_view(), lv.2[q]),
                decreases lit.2.len() - i,
            {
                assert(lv.2[i as int] == lit.2@[i as int]@);
                if lit.2[i] != inner.0.0 && !has_name_exec(rv, &lit.2[i]) {
                    return false;
                }
                i = i + 1;
            }
            facts_have_at_least(state, &lit.1, lit.2.len())
        },
    }
}

/// Whether the precondition can be checked with the values of the relevant variables.
pub fn checkable_exec(p: &Precondition, rv: &RelVars, state: &Vec<(String, Vec<String>)>) -> (res: bool)
    requires
        names_distinct(rv.deep_view()),
    ensures
        res == precondition_checkable(p.deep_view(), rv.deep_view(), state.deep_view()),
{
    let ghost pv = p.deep_view();
    if p.0 < 0 || p.0 > 4 {
        return false;
    }
    if p.0 == 0 || p.0 == 1 {
        let vl = arg_value_lists(&p.2, rv);
        return facts_have_at_most(state, &p.1, vl.len());
    }
    if p.0 == 4 {
        match &p.3 {
            None => { return false; },
            Some(inner) => {
                if inner.1.len() < 1 {
                    return false;
                }
                assert(pv.3.unwrap().1[0] == inner.1@[0].deep_view());
                return facts_have_at_least(state, &inner.1[0].1, inner.1[0].2.len());
            },
        }
    }
    true
}

/// Whether every precondition of a list is trimmable.
pub fn all_trimmable(list: &Vec<Precondition>, rv: &RelVars, state: &Vec<(String, Vec<String>)>) -> (res: bool)
    ensures
        res == forall|k: int| 0 <= k < list.len() ==> trimmable(#[trigger] list.deep_view()[k], rv.deep_view(), state.deep_view()),
{
    let ghost l = list.deep_view();
    let mut k: usize = 0;
    while k < list.len()
        invariant
            l == list.deep_view(),
            k <= list.len(),
            forall|q: int| 0 <= q < k ==> trimmable(#[trigger] l[q], rv.deep_view(), state.deep_view()),
        decreases list.len() - k,
    {
        assert(l[k as int] == list@[k as int].deep_view());
        if !trimmable_exec(&list[k], rv, state) {
            return false;
        }
        k = k + 1;
    }
    true
}

/// Whether every precondition of a list (or every literal one) is checkable.
pub fn all_checkable(list: &Vec<Precondition>, literals_only: bool, rv: &RelVars, state: &Vec<(String, Vec<String>)>) -> (res: bool)
    requires
        names_distinct(rv.deep_view()),
    ensures
        res == forall|k: int| 0 <= k < list.len() && (!literals_only || list.deep_view()[k].0 < 2)
            ==> precondition_checkable(#[trigger] list.deep_view()[k], rv.deep_view(), state.deep_view()),
{
    let ghost l = list.deep_view();
    let mut k: usize = 0;
    while k < list.len()
        invariant
            l == list.deep_view(),
            names_distinct(rv.deep_view()),
            k <= list.len(),
            forall|q: int| 0 <= q < k && (!literals_only || l[q].0 < 2) ==> precondition_checkable(#[trigger] l[q], rv.deep_view(), state.deep_view()),
        decreases list.len() - k,
    {
        assert(l[k as int] == list@[k as int].deep_view());
        if (!literals_only || list[k].0 < 2) && !checkable_exec(&list[k], rv, state) {
            return false;
        }
        k = k + 1;
    }
    true
}

fn params_of(st: &(MethodSubtask, Vec<Argument>)) -> (res: &Vec<Argument>)
    ensures
        res.deep_view() == subtask_params(st.deep_view()),
{
    match &st.0 {
        MethodSubtask::Task(t) => &t.parameters,
        MethodSubtask::Action(a) => &a.parameters,
    }
}

/// Whether the call stack names a current subtask whose parameters the
/// given parameters cover.
pub fn renaming_possible_exec(called: &Called, params: &Vec<Argument>) -> (res: bool)
    ensures
        res == renaming_possible(called.deep_view(), params.deep_view()),
{
    if called.1.len() == 0 || called.2.len() == 0 {
        return false;
    }
    let caller = &called.1[called.1.len() - 1].0;
    let idx = called.2[called.2.len() - 1];
    assert(called.deep_view().1.last().0 == caller@);
    if idx < 1 || idx > caller.subtasks.len() {
        return false;
    }
    assert(caller@.subtasks[idx - 1] == caller.subtasks@[idx - 1].deep_view());
    params.len() >= params_of(&caller.subtasks[idx - 1]).len()
}

fn name_count_exec(arg: &String, rv: &RelVars) -> (res: usize)
    ensures
        res == name_count(arg@, rv.deep_view(), rv.len() as int),
{
    let ghost s = rv.deep_view();
    let mut c: usize = 0;
    let mut j: usize = 0;
    while j < rv.len()
        invariant
            s == rv.deep_view(),
            j <= rv.len(),
            c == name_count(arg@, s, j as int),
            c <= j,
        decreases rv.len() - j,
    {
        assert(s[j as int] == rv@[j as int].deep_view());
        if rv[j].0 == *arg {
            c = c + 1;
        }
        j = j + 1;
    }
    c
}

/// Whether a finished method can hand its variables back to its caller.
pub fn hand_back_possible_exec(m: &Method, rv: &RelVars, called: &Called) -> (res: bool)
    ensures
        res == hand_back_possible(m@, rv.deep_view(), called.deep_view()),
{
    let ghost cv = called.deep_view();
    if called.1.len() == 0 || called.2.len() == 0 {
        return false;
    }
    let caller = &called.1[called.1.len() - 1].0;
    let idx = called.2[called.2.len() - 1];
    assert(cv.1.last().0 == caller@);
    if idx < 1 || idx > caller.subtasks.len() {
        return false;
    }
    assert(caller@.subtasks[idx - 1] == caller.subtasks@[idx - 1].deep_view());
    let limit = params_of(&caller.subtasks[idx - 1]).len();
    let ghost args = m@.task.1;
    let mut total: usize = 0;
    let mut k: usize = 0;
    while k < m.task.1.len()
        invariant
            args == m@.task.1,
            k <= m.task.1.len(),
            total == task_match_count(args, rv.deep_view(), k as int),
            total <= limit,
        decreases m.task.1.len() - k,
    {
        assert(args[k as int] == m.task.1@[k as int]@);
        let c = name_count_exec(&m.task.1[k], rv);
        if c > limit - total {
            assert(task_match_count(args, rv.deep_view(), k as int + 1) > limit);
            proof { lemma_task_match_count_grows(args, rv.deep_view(), k as int + 1, args.len() as int); }
            return false;
        }
        total = total + c;
        k = k + 1;
    }
    true
}

/// Whether a finished method can record what it found.
pub fn finish_possible_exec(af: &AppliedFunctions, m: &Method) -> (res: bool)
    ensures
        res == finish_possible(af.deep_view(), m@),
{
    let ghost a = af.deep_view();
    let ghost mm = m@;
    let id = m.id;
    if id >= af.1.len() {
        return false;
    }
    assert(a.1[id as int] == af.1@[id as int].deep_view());
    let own = &af.1[id].2;
    proof { crate::datastructures::node::lemma_indices_view(*own); }
    let mut k: usize = 0;
    while k < own.len()
        invariant
            own@ == a.1[id as int].2,
            id < af.1.len(),
            a == af.deep_view(),
            k <= own.len(),
            forall|q: int| 0 <= q < k ==> (#[trigger] a.1[id as int].2[q]) < a.1.len(),
        decreases own.len() - k,
    {
        if own[k] >= af.1.len() {
            return false;
        }
        k = k + 1;
    }
    let mut s: usize = 0;
    while s < af.1.len()
        invariant
            a == af.deep_view(),
            mm == m@,
            id < af.1.len(),
            s <= af.1.len(),
            forall|q: int| 0 <= q < a.1[id as int].2.len() ==> (#[trigger] a.1[id as int].2[q]) < a.1.len(),
            forall|ss: int, kk: int| 0 <= ss < s && 0 <= kk < mm.subtasks.len() && (#[trigger] mm.subtasks[kk]).0 is Task
                && mm.subtasks[kk].0->Task_0.name == applied_task_name((#[trigger] a.1[ss]).0)
                ==> (if ss == id { mm.task.1.len() } else { a.1[ss].3.len() }) <= mm.subtasks[kk].0->Task_0.parameters.len(),
        decreases af.1.len() - s,
    {
        let e = &af.1[s];
        assert(a.1[s as int] == e.deep_view());
        let need = if s == id { m.task.1.len() } else { e.3.len() };
        let mut kk: usize = 0;
        while kk < m.subtasks.len()
            invariant
                a == af.deep_view(),
                mm == m@,
                s < af.1.len(),
                a.1[s as int] == e.deep_view(),
                need == (if s == id { mm.task.1.len() } else { a.1[s as int].3.len() }),
                kk <= m.subtasks.len(),
                forall|q: int| 0 <= q < kk && (#[trigger] mm.subtasks[q]).0 is Task
                    && mm.subtasks[q].0->Task_0.name == applied_task_name(a.1[s as int].0)
                    ==> need <= mm.subtasks[q].0->Task_0.parameters.len(),
            decreases m.subtasks.len() - kk,
        {
            assert(mm.subtasks[kk as int] == m.subtasks@[kk as int].deep_view());
            match &m.subtasks[kk].0 {
                MethodSubtask::Task(t) => {
                    let hit = match &e.0 {
                        SubtaskTypes::Method(sm) => sm.task.0 == t.name,
                        _ => t.name == String::new(),
                    };
                    proof {
                        if !(e.0 is Method) {
                            assert(applied_task_name(a.1[s as int].0) == Seq::<char>::empty());
                        }
                    }
                    assert(hit == (t.name@ == applied_task_name(a.1[s as int].0))) by {
                        if !(e.0 is Method) {
                            assert(Seq::<char>::empty() =~= Seq::<char>::empty());
                        }
                    }
                    if hit && need > t.parameters.len() {
                        return false;
                    }
                },
                MethodSubtask::Action(_) => {},
            }
            kk = kk + 1;
        }
        s = s + 1;
    }
    true
}

/// Whether `decide_passing_preconditions` is defined on the values at hand.
pub fn deciding_possible_exec(passing: &Vec<Precondition>, m: &Method, index: usize, rv: &RelVars, problem: &Problem) -> (res: bool)
    ensures
        res == deciding_possible(passing.deep_view(), m@, index as int, rv.deep_view(), problem@),
{
    if index >= m.subtasks.len() {
        return false;
    }
    if !names_distinct_exec(rv) {
        return false;
    }
    assert(problem@.state == problem.state.deep_view());
    if index > 0 {
        if !all_checkable(passing, false, rv, &problem.state) {
            return false;
        }
        match &m.precondition {
            Some(pre) => {
                assert(m@.precondition == Some(pre.deep_view()));
                if !all_checkable(pre, true, rv, &problem.state) {
                    return false;
                }
            },
            None => {},
        }
    }
    true
}

proof fn lemma_task_match_count_grows(args: Seq<Str>, rv: RelVarsModel, n: int, m: int)
    requires
        n <= m,
    ensures
        task_match_count(args, rv, n) <= task_match_count(args, rv, m),
    decreases m - n,
{
    if n < m {
        lemma_task_match_count_grows(args, rv, n, m - 1);
    }
}

/// Whether `partial_hash_state` reads no missing index of the queue.
pub fn hashable_exec(q: &Vec<(SubtaskTypes, RelVars, Called, Vec<Precondition>)>) -> (res: bool)
    ensures
        res == partial_hashable(q.deep_view()),
{
    let ghost qv = q.deep_view();
    let mut ok = true;
    let mut stops = false;
    let mut k: usize = 0;
    while k < q.len()
        invariant
            qv == q.deep_view(),
            k <= q.len(),
            ok == (partial_entries(qv, k as int) is Some),
            stops == partial_scan_stops(qv, k as int),
        decreases q.len() - k,
    {
        assert(qv[k as int] == q@[k as int].deep_view());
        proof { crate::datastructures::node::lemma_indices_view(q@[k as int].2.2); }
        let was_ok = ok;
        match &q[k].0 {
            SubtaskTypes::Method(_) => { ok = ok && q[k].2.2.len() > 0; },
            SubtaskTypes::Action(_) => { ok = ok && q[k].2.2.len() > 0; },
            _ => {
                if !stops { stops = was_ok; }
                ok = false;
            },
        }
        k = k + 1;
    }
    stops || ok
}

/// Whether `check_goal_condition` reads no missing argument.
pub fn goal_fits_exec(state: &Vec<(String, Vec<String>)>, goal: &Option<Vec<(String, Vec<String>)>>) -> (res: bool)
    ensures
        res == goal_arities_fit(state.deep_view(), goal.deep_view()),
{
    match goal {
        None => true,
        Some(g) => {
            let ghost gv = g.deep_view();
            let ghost st = state.deep_view();
            assert(goal.deep_view() == Some(gv));
            let mut i: usize = 0;
            while i < g.len()
                invariant
                    gv == g.deep_view(),
                    st == state.deep_view(),
                    i <= g.len(),
                    forall|a: int, j: int| 0 <= a < i && 0 <= j < st.len() && (#[trigger] gv[a]).0 == (#[trigger] st[j]).0 ==> gv[a].1.len() <= st[j].1.len(),
                decreases g.len() - i,
            {
                assert(gv[i as int] == g@[i as int].deep_view());
                let mut j: usize = 0;
                while j < state.len()
                    invariant
                        gv == g.deep_view(),
                        st == state.deep_view(),
                        i < g.len(),
                        j <= state.len(),
                        forall|a: int, b: int| 0 <= a < i && 0 <= b < st.len() && (#[trigger] gv[a]).0 == (#[trigger] st[b]).0 ==> gv[a].1.len() <= st[b].1.len(),
                        forall|b: int| 0 <= b < j && gv[i as int].0 == (#[trigger] st[b]).0 ==> gv[i as int].1.len() <= st[b].1.len(),
                    decreases state.len() - j,
                {
                    assert(st[j as int] == state@[j as int].deep_view());
                    if g[i].0 == state[j].0 && g[i].1.len() > state[j].1.len() {
                        assert(gv[i as int].0 == st[j as int].0 && gv[i as int].1.len() > st[j as int].1.len());
                        assert(!goal_arities_fit(st, Some(gv)));
                        return false;
                    }
                    j = j + 1;
                }
                i = i + 1;
            }
            assert(goal_arities_fit(st, Some(gv)));
            true
        },
    }
}

pub(crate) fn has_key_exec(table: &Vec<(String, Vec<Method>)>, key: &String) -> (res: bool)
    ensures
        res == has_key(table.deep_view(), key@),
{
    let ghost t = table.deep_view();
    let mut i: usize = 0;
    while i < table.len()
        invariant
            t == table.deep_view(),
            i <= table.len(),
            forall|q: int| 0 <= q < i ==> (#[trigger] t[q]).0 != key@,
        decreases table.len() - i,
    {
        assert(t[i as int] == table@[i as int].deep_view());
        if table[i].0 == *key {
            return true;
        }
        i = i + 1;
    }
    false
}

/// Whether `perform_htn_task` (partially ordered) reads nothing missing.
pub fn htn_ready(node: &PartialNode, domain: &Domain, htn: &(String, String, Vec<String>), rv: &RelVars, sqi: usize) -> (res: bool)
    ensures
        res == partial_htn_possible(node@, domain@, htn.deep_view(), rv.deep_view(), sqi as int),
{
    if sqi >= node.subtask_queue.len() {
        return false;
    }
    let ghost d = domain@;
    let ghost h = htn.deep_view();
    match get_methods(&domain.methods, &htn.0) {
        Some(found) => {
            let sorted = sort_by_subtasks(found);
            let ghost ms = sorted.deep_view();
            proof { crate::toolbox::methods::lemma_sorted_len_pub(found.deep_view()); }
            let mut k: usize = 0;
            while k < sorted.len()
                invariant
                    ms == sorted.deep_view(),
                    k <= sorted.len(),
                    forall|q: int| 0 <= q < k ==> (#[trigger] ms[q]).task.1.len() <= rv.deep_view().len(),
                decreases sorted.len() - k,
            {
                assert(ms[k as int] == sorted@[k as int]@);
                if sorted[k].task.1.len() > rv.len() {
                    return false;
                }
                k = k + 1;
            }
            true
        },
        None => {
            let mut k: usize = 0;
            while k < domain.actions.len()
                invariant
                    d == domain@,
                    h == htn.deep_view(),
                    k <= domain.actions.len(),
                    forall|q: int| 0 <= q < k && (#[trigger] d.actions[q]).name == h.0 ==> h.2.len() >= d.actions[q].parameters.len(),
                decreases domain.actions.len() - k,
            {
                assert(d.actions[k as int] == domain.actions@[k as int]@);
                if domain.actions[k].name == htn.0 && htn.2.len() < domain.actions[k].parameters.len() {
                    return false;
                }
                k = k + 1;
            }
            true
        },
    }
}

fn task_args_exec(method: &Method) -> (res: Vec<Argument>)
    ensures
        res.deep_view() == task_args(method@),
{
    let ghost target = task_args(method@);
    let mut res: Vec<Argument> = Vec::new();
    let mut i: usize = 0;
    while i < method.task.1.len()
        invariant
            target == task_args(method@),
            i <= method.task.1.len(),
            res.deep_view() == target.take(i as int),
        decreases method.task.1.len() - i,
    {
        assert(method@.task.1[i as int] == method.task.1@[i as int]@);
        res.push(Argument { name: method.task.1[i].clone(), object_type: crate::text::string_of("none") });
        assert(res.deep_view() =~= target.take(i as int + 1));
        i = i + 1;
    }
    assert(target.take(i as int) =~= target);
    res
}

/// Whether `perform_task` (partially ordered) reads nothing missing.
pub fn task_ready(node: &PartialNode, domain: &Domain, task: &Task, rv: &RelVars, called: &Called, passing: &Vec<Precondition>, sqi: usize) -> (res: bool)
    ensures
        res == partial_task_possible(node@, domain@, task@, rv.deep_view(), called.deep_view(), passing.deep_view(), sqi as int),
{
    if node.problem.goal.is_none() && !has_key_exec(&domain.methods, &task.name) {
        return false;
    }
    if sqi >= node.subtask_queue.len() {
        return false;
    }
    let ms = prioritize_methods(domain, &node.problem, &node.goal_functions, task.name.clone());
    let ghost msv = ms.deep_view();
    let mut k: usize = 0;
    while k < ms.len()
        invariant
            msv == ms.deep_view(),
            k <= ms.len(),
            forall|q: int| 0 <= q < k ==> (#[trigger] msv[q]).task.1.len() <= rv.deep_view().len(),
            passing.len() > 0 ==> forall|q: int| 0 <= q < k ==> renaming_possible(called.deep_view(), task_args(#[trigger] msv[q])),
        decreases ms.len() - k,
    {
        assert(msv[k as int] == ms@[k as int]@);
        if ms[k].task.1.len() > rv.len() {
            return false;
        }
        if passing.len() > 0 {
            let args = task_args_exec(&ms[k]);
            if !renaming_possible_exec(called, &args) {
                return false;
            }
        }
        k = k + 1;
    }
    true
}

/// Whether `perform_method` (partially ordered) reads nothing missing.
#[verifier::rlimit(60)]
pub fn method_ready(node: &PartialNode, m: &Method, rv: &RelVars, called: &Called, sqi: usize, passing: &Vec<Precondition>) -> (res: bool)
    ensures
        res == partial_method_possible(node@, m@, rv.deep_view(), called.deep_view(), sqi as int, passing.deep_view()),
{
    let ghost n = node@;
    let ghost mm = m@;
    let ghost rv0 = rv.deep_view();
    let ghost cv = called.deep_view();
    let ghost pv = passing.deep_view();
    if called.2.len() == 0 {
        return false;
    }
    if !names_distinct_exec(rv) || !all_variables_exec(rv) {
        return false;
    }
    let idx = called.2[called.2.len() - 1];
    assert(idx == cv.2.last());
    assert(n.problem.state == node.problem.state.deep_view());
    let rv1 = if idx == 0 && m.precondition.is_some() {
        let pre = match &m.precondition { Some(p) => p, None => { return false; } };
        assert(mm.precondition == Some(pre.deep_view()));
        if !all_trimmable(pre, rv, &node.problem.state) {
            return false;
        }
        let (r, ok) = precon_trimmer(clone_relvars(rv), pre, &node.problem, &node.problem.state);
        if !ok {
            assert(entry_relvars(n, mm, rv0, cv) is None);
            return true;
        }
        r
    } else {
        clone_relvars(rv)
    };
    let ghost r1 = rv1.deep_view();
    assert(entry_relvars(n, mm, rv0, cv) == Some(r1));
    assert(same_names(r1, rv0)) by {
        if !(idx == 0 && mm.precondition is Some) {
            assert forall|j: int| 0 <= j < r1.len() implies (#[trigger] r1[j]).0 == rv0[j].0 && r1[j].1 == rv0[j].1 by {}
        }
    }
    let len = m.subtasks.len();
    if len > 0 && idx > len {
        return false;
    }
    if len == 0 || idx == len {
        if called.0.len() == 0 || sqi >= node.subtask_queue.len() {
            return false;
        }
        if called.0[called.0.len() - 1] {
            let mut c2 = clone_called(called);
            c2.0.pop();
            c2.2.pop();
            proof { crate::datastructures::node::lemma_indices_view(c2.2); }
            assert(c2.0@ =~= cv.0.drop_last());
            assert(c2.2@ =~= cv.2.drop_last());
            assert(c2.deep_view() == (cv.0.drop_last(), cv.1, cv.2.drop_last()));
            if !hand_back_possible_exec(m, &rv1, &c2) {
                return false;
            }
        }
        if len > 0 && !finish_possible_exec(&node.applied_functions, m) {
            return false;
        }
        return true;
    }
    let mut passing1 = clone_preconditions(passing);
    match &m.precondition {
        Some(own) => {
            let mut o = clone_preconditions(own);
            passing1.append(&mut o);
        },
        None => {},
    }
    assert(passing1.deep_view() =~= with_own(pv, mm));
    let ghost p1 = passing1.deep_view();
    assert(n.original_state == node.original_state.deep_view());
    if !all_trimmable(&passing1, rv, &node.original_state) {
        return false;
    }
    proof {
        assert(same_names(rv0, r1)) by {
            assert forall|j: int| 0 <= j < rv0.len() implies (#[trigger] rv0[j]).0 == r1[j].0 && rv0[j].1 == r1[j].1 by {}
        }
        lemma_same_names_props(rv0, r1);
        assert forall|k: int| 0 <= k < p1.len() implies trimmable(#[trigger] p1[k], r1, n.original_state) by {
            lemma_trimmable_same_names(p1[k], rv0, r1, n.original_state);
        }
    }
    let (r2, ok2) = precon_trimmer(clone_relvars(&rv1), &passing1, &node.problem, &node.original_state);
    if ok2 && !deciding_possible_exec(&passing1, m, idx, &r2, &node.problem) {
        return false;
    }
    if m.id >= node.applied_functions.1.len() || sqi >= node.subtask_queue.len() {
        return false;
    }
    let st = &m.subtasks[idx];
    assert(mm.subtasks[idx as int] == st.deep_view());
    st.1.len() >= params_of(st).len()
}

/// Whether `perform_action_cdcl` (partially ordered) reads nothing missing.
#[verifier::rlimit(40)]
pub fn action_ready(node: &PartialNode, a: &Action, rv: &RelVars, called: &Called, passing: &Vec<Precondition>, sqi: usize) -> (res: bool)
    ensures
        res == partial_action_possible(node@, a@, rv.deep_view(), called.deep_view(), passing.deep_view(), sqi as int),
{
    let ghost n = node@;
    let ghost av = a@;
    let ghost cv = called.deep_view();
    let ghost pv = passing.deep_view();
    if passing.len() > 0 && !renaming_possible_exec(called, &a.parameters) {
        return false;
    }
    if !names_distinct_exec(rv) || !all_variables_exec(rv) {
        return false;
    }
    let renamed = update_passing_precondition(called, passing, &a.parameters);
    assert(renamed.deep_view() =~= renamed_passing(pv, cv, av.parameters));
    let mut plist: Vec<Precondition> = match &a.precondition {
        Some(p) => clone_preconditions(p),
        None => Vec::new(),
    };
    let mut r = renamed;
    plist.append(&mut r);
    assert(plist.deep_view() =~= action_preconditions(av, pv, cv));
    assert(n.problem.state == node.problem.state.deep_view());
    if !all_trimmable(&plist, rv, &node.problem.state) {
        return false;
    }
    if sqi >= node.subtask_queue.len() {
        return false;
    }
    let (r1, ok) = precon_trimmer(clone_relvars(rv), &plist, &node.problem, &node.problem.state);
    let ghost t0 = r1.deep_view();
    if !ok || called.1.len() == 0 {
        return true;
    }
    proof { lemma_first_unsettled(t0); }
    let mut i: usize = 0;
    while i < r1.len() && r1[i].2.len() == 1
        invariant
            t0 == r1.deep_view(),
            i <= r1.len(),
            forall|k: int| 0 <= k < i ==> (#[trigger] t0[k]).2.len() == 1,
        decreases r1.len() - i,
    {
        assert(t0[i as int] == r1@[i as int].deep_view());
        i = i + 1;
    }
    if i < r1.len() {
        assert(t0[i as int] == r1@[i as int].deep_view());
    }
    assert(i == first_unsettled(t0)) by {
        let f = first_unsettled(t0);
        if f < i { assert(t0[f].2.len() == 1); }
        if i < f { assert(t0[i as int].2.len() == 1); }
    }
    if i < r1.len() {
        return true;
    }
    if called.2.len() == 0 {
        return false;
    }
    let caller = &called.1[called.1.len() - 1].0;
    let idx = called.2[called.2.len() - 1];
    assert(cv.1.last().0 == caller@);
    if idx < 1 || idx > caller.subtasks.len() {
        return false;
    }
    assert(caller@.subtasks[idx - 1] == caller.subtasks@[idx - 1].deep_view());
    r1.len() <= params_of(&caller.subtasks[idx - 1]).len()
}

/// Whether every method of the domain is filed under its own task.
pub fn table_is_filed(domain: &Domain) -> (res: bool)
    ensures
        res == table_filed(domain@.methods),
{
    let ghost t = domain@.methods;
    let mut i: usize = 0;
    while i < domain.methods.len()
        invariant
            t == domain@.methods,
            i <= domain.methods.len(),
            forall|a: int, b: int| 0 <= a < i && 0 <= b < t[a].1.len() ==> (#[trigger] t[a].1[b]).task.0 == t[a].0,
        decreases domain.methods.len() - i,
    {
        assert(t[i as int] == domain.methods@[i as int].deep_view());
        let ms = &domain.methods[i].1;
        let mut j: usize = 0;
        while j < ms.len()
            invariant
                t == domain@.methods,
                i < domain.methods.len(),
                t[i as int].1 == ms.deep_view(),
                t[i as int].0 == domain.methods@[i as int].0@,
                j <= ms.len(),
                forall|a: int, b: int| 0 <= a < i && 0 <= b < t[a].1.len() ==> (#[trigger] t[a].1[b]).task.0 == t[a].0,
                forall|b: int| 0 <= b < j ==> (#[trigger] t[i as int].1[b]).task.0 == t[i as int].0,
            decreases ms.len() - j,
        {
            assert(t[i as int].1[j as int] == ms@[j as int]@);
            if ms[j].task.0 != domain.methods[i].0 {
                return false;
            }
            j = j + 1;
        }
        i = i + 1;
    }
    true
}

/// Whether `perform_htn_task` (totally ordered) reads nothing missing.
pub fn total_htn_ready(domain: &Domain, htn: &(String, String, Vec<String>), rv: &RelVars) -> (res: bool)
    ensures
        res == total_htn_possible(domain@, htn.deep_view(), rv.deep_view()),
{
    let ghost d = domain@;
    let ghost h = htn.deep_view();
    match get_methods(&domain.methods, &htn.0) {
        Some(found) => {
            let sorted = sort_by_subtasks(found);
            let ghost ms = sorted.deep_view();
            proof { crate::toolbox::methods::lemma_sorted_len_pub(found.deep_view()); }
            let mut k: usize = 0;
            while k < sorted.len()
                invariant
                    ms == sorted.deep_view(),
                    k <= sorted.len(),
                    forall|q: int| 0 <= q < k ==> (#[trigger] ms[q]).task.1.len() <= rv.deep_view().len(),
                decreases sorted.len() - k,
            {
                assert(ms[k as int] == sorted@[k as int]@);
                if sorted[k].task.1.len() > rv.len() {
                    return false;
                }
                k = k + 1;
            }
            true
        },
        None => {
            let mut k: usize = 0;
            while k < domain.actions.len()
                invariant
                    d == domain@,
                    h == htn.deep_view(),
                    k <= domain.actions.len(),
                    forall|q: int| 0 <= q < k && (#[trigger] d.actions[q]).name == h.0 ==> h.2.len() >= d.actions[q].parameters.len(),
                decreases domain.actions.len() - k,
            {
                assert(d.actions[k as int] == domain.actions@[k as int]@);
                if domain.actions[k].name == htn.0 && htn.2.len() < domain.actions[k].parameters.len() {
                    return false;
                }
                k = k + 1;
            }
            true
        },
    }
}

fn object_named_exec(objects: &Vec<(String, String, Vec<String>)>, name: &String) -> (res: bool)
    ensures
        res == object_named(objects.deep_view(), name@),
{
    let ghost o = objects.deep_view();
    let mut j: usize = 0;
    while j < objects.len()
        invariant
            o == objects.deep_view(),
            j <= objects.len(),
            forall|q: int| 0 <= q < j ==> (#[trigger] o[q]).0 != name@,
        decreases objects.len() - j,
    {
        assert(o[j as int] == objects@[j as int].deep_view());
        if objects[j].0 == *name {
            return true;
        }
        j = j + 1;
    }
    false
}

/// Whether `perform_method` (totally ordered) reads nothing missing.
#[verifier::rlimit(80)]
pub fn total_method_ready(node: &Node, domain: &Domain, m: &Method, rv: &RelVars) -> (res: bool)
    ensures
        res == total_method_possible(node@, domain@, m@, rv.deep_view()),
{
    let ghost n = node@;
    let ghost d = domain@;
    let ghost mm = m@;
    let ghost rv0 = rv.deep_view();
    if node.called.2.len() == 0 {
        return false;
    }
    let idx = node.called.2[node.called.2.len() - 1];
    assert(idx == n.called.2.last());
    assert(n.problem.state == node.problem.state.deep_view());
    if idx == 0 && m.constraints.is_some() && rv.len() == 0 {
        return false;
    }
    let mut rv1 = clone_relvars(rv);
    if idx == 0 {
        match &m.precondition {
            Some(pre) => {
                assert(mm.precondition == Some(pre.deep_view()));
                if !names_distinct_exec(rv) || !all_variables_exec(rv) || !all_trimmable(pre, rv, &node.problem.state) {
                    return false;
                }
                let (r, ok) = precon_trimmer(clone_relvars(rv), pre, &node.problem, &node.problem.state);
                if !ok {
                    assert(total_entry(n, mm, rv0) is None);
                    return true;
                }
                rv1 = r;
            },
            None => {},
        }
    }
    let ghost r1 = rv1.deep_view();
    assert(r1.len() == rv0.len());
    let rv2 = if idx == 0 && m.constraints.is_some() {
        let cs = match &m.constraints { Some(c) => c, None => { return false; } };
        assert(mm.constraints == Some(cs.deep_view()));
        let mut list = check_constraints(&rv1, cs);
        if list.len() == 0 {
            assert(total_entry(n, mm, rv0) is None);
            return true;
        }
        let ghost lv = list.deep_view();
        assert(total_entry(n, mm, rv0) == Some(lv));
        let last = list.pop().unwrap();
        assert(last.deep_view() == lv.last());
        last
    } else {
        assert(total_entry(n, mm, rv0) == Some(seq![r1]));
        rv1
    };
    let ghost r2 = rv2.deep_view();
    assert(total_entry(n, mm, rv0).unwrap().last() == r2);
    let len = m.subtasks.len();
    if len > 0 && idx > len {
        return false;
    }
    if len == 0 || idx == len {
        if node.called.0.len() == 0 {
            return false;
        }
        if node.called.0[node.called.0.len() - 1] {
            let mut c2 = clone_called(&node.called);
            c2.0.pop();
            c2.2.pop();
            proof { crate::datastructures::node::lemma_indices_view(c2.2); }
            assert(c2.0@ =~= n.called.0.drop_last());
            assert(c2.2@ =~= n.called.2.drop_last());
            assert(c2.deep_view() == (n.called.0.drop_last(), n.called.1, n.called.2.drop_last()));
            if !hand_back_possible_exec(m, &rv2, &c2) {
                return false;
            }
        }
        if len > 0 && !finish_possible_exec(&node.applied_functions, m) {
            return false;
        }
        return true;
    }
    if !deciding_possible_exec(&node.passing_preconditions, m, idx, &rv2, &node.problem) {
        return false;
    }
    let st = &m.subtasks[idx];
    assert(mm.subtasks[idx as int] == st.deep_view());
    let entry = subtask_entry_exec(domain, st, &rv2, &node.problem.objects);
    if entry.is_some() && m.id >= node.applied_functions.1.len() {
        return false;
    }
    let (name, args) = match &st.0 {
        MethodSubtask::Task(t) => (&t.name, &t.parameters),
        MethodSubtask::Action(a) => (&a.name, &a.parameters),
    };
    assert(name@ == subtask_name(st.deep_view()));
    assert(args.deep_view() == subtask_params(st.deep_view()));
    let ghost av = args.deep_view();
    if find_task_exec(&domain.tasks, name).is_none() {
        match find_action_exec(&domain.actions, name) {
            Some(a) => {
                assert(d.actions[a as int] == domain.actions@[a as int]@);
                let mut j: usize = domain.actions[a].parameters.len();
                if j > args.len() {
                    return true;
                }
                while j < args.len()
                    invariant
                        av == args.deep_view(),
                        a < domain.actions.len(),
                        d == domain@,
                        d.actions[a as int].parameters.len() <= j <= args.len(),
                        forall|q: int| d.actions[a as int].parameters.len() <= q < j ==> !arg_hits((#[trigger] av[q]).name, r2, n.problem.objects),
                    decreases args.len() - j,
                {
                    assert(av[j as int] == args@[j as int]@);
                    let hit = if is_variable(&args[j].name) {
                        has_name_exec(&rv2, &args[j].name)
                    } else {
                        assert(n.problem.objects == node.problem.objects.deep_view());
                        object_named_exec(&node.problem.objects, &args[j].name)
                    };
                    if hit {
                        return false;
                    }
                    j = j + 1;
                }
            },
            None => {},
        }
    }
    true
}

fn effect_arities_fit_exec(a: &Action) -> (res: bool)
    ensures
        res == effect_arities_fit(a@),
{
    let ghost av = a@;
    match (&a.effect, &a.precondition) {
        (Some(es), Some(ps)) => {
            assert(av.effect == Some(es.deep_view()) && av.precondition == Some(ps.deep_view()));
            let ghost ev = es.deep_view();
            let ghost pv = ps.deep_view();
            let mut i: usize = 0;
            while i < es.len()
                invariant
                    ev == es.deep_view(),
                    pv == ps.deep_view(),
                    i <= es.len(),
                    forall|x: int, y: int| 0 <= x < i && 0 <= y < pv.len() && (#[trigger] ev[x]).1 == (#[trigger] pv[y]).1 ==> ev[x].2.len() <= pv[y].2.len(),
                decreases es.len() - i,
            {
                assert(ev[i as int] == es@[i as int].deep_view());
                let mut j: usize = 0;
                while j < ps.len()
                    invariant
                        ev == es.deep_view(),
                        pv == ps.deep_view(),
                        i < es.len(),
                        j <= ps.len(),
                        forall|x: int, y: int| 0 <= x < i && 0 <= y < pv.len() && (#[trigger] ev[x]).1 == (#[trigger] pv[y]).1 ==> ev[x].2.len() <= pv[y].2.len(),
                        forall|y: int| 0 <= y < j && ev[i as int].1 == (#[trigger] pv[y]).1 ==> ev[i as int].2.len() <= pv[y].2.len(),
                    decreases ps.len() - j,
                {
                    assert(pv[j as int] == ps@[j as int].deep_view());
                    if es[i].1 == ps[j].1 && es[i].2.len() > ps[j].2.len() {
                        assert(ev[i as int].1 == pv[j as int].1 && ev[i as int].2.len() > pv[j as int].2.len());
                        return false;
                    }
                    j = j + 1;
                }
                i = i + 1;
            }
            true
        },
        _ => true,
    }
}

/// Whether `action_would_result_in_nothing` reads nothing missing.
pub fn nothing_checkable_exec(a: &Action, state: &Vec<(String, Vec<String>)>, rv: &RelVars) -> (res: bool)
    ensures
        res == nothing_checkable(a@, state.deep_view(), rv.deep_view()),
{
    let es = match &a.effect { Some(e) => e, None => { return false; } };
    let ghost ev = es.deep_view();
    let ghost st = state.deep_view();
    let ghost r = rv.deep_view();
    assert(a@.effect == Some(ev));
    if !effect_arities_fit_exec(a) {
        return false;
    }
    let mut k: usize = 0;
    while k < es.len()
        invariant
            ev == es.deep_view(),
            st == state.deep_view(),
            r == rv.deep_view(),
            k <= es.len(),
            forall|x: int, i: int| 0 <= x < k && 0 <= i < st.len() && (#[trigger] st[i]).0 == (#[trigger] ev[x]).1 ==> st[i].1.len() >= ev[x].2.len(),
            forall|x: int, q: int, j: int| 0 <= x < k && 0 <= q < ev[x].2.len() && 0 <= j < r.len()
                && (#[trigger] r[j]).0 == #[trigger] ev[x].2[q] ==> r[j].2.len() > 0,
        decreases es.len() - k,
    {
        assert(ev[k as int] == es@[k as int].deep_view());
        if !facts_have_at_least(state, &es[k].1, es[k].2.len()) {
            return false;
        }
        let ghost args = ev[k as int].2;
        let mut q: usize = 0;
        while q < es[k].2.len()
            invariant
                ev == es.deep_view(),
                r == rv.deep_view(),
                k < es.len(),
                args == ev[k as int].2,
                q <= args.len(),
                forall|y: int, j: int| 0 <= y < q && 0 <= j < r.len() && (#[trigger] r[j]).0 == #[trigger] args[y] ==> r[j].2.len() > 0,
            decreases args.len() - q,
        {
            assert(args[q as int] == es@[k as int].2@[q as int]@);
            let mut j: usize = 0;
            while j < rv.len()
                invariant
                    r == rv.deep_view(),
                    ev == es.deep_view(),
                    k < es.len(),
                    args == ev[k as int].2,
                    q < args.len(),
                    j <= rv.len(),
                    forall|y: int, jj: int| 0 <= y < q && 0 <= jj < r.len() && (#[trigger] r[jj]).0 == #[trigger] args[y] ==> r[jj].2.len() > 0,
                    forall|jj: int| 0 <= jj < j && (#[trigger] r[jj]).0 == args[q as int] ==> r[jj].2.len() > 0,
                decreases rv.len() - j,
            {
                assert(r[j as int] == rv@[j as int].deep_view());
                if rv[j].0 == es[k].2[q] && rv[j].2.len() == 0 {
                    assert(r[j as int].0 == ev[k as int].2[q as int] && r[j as int].2.len() == 0);
                    return false;
                }
                j = j + 1;
            }
            q = q + 1;
        }
        k = k + 1;
    }
    true
}

/// Whether `perform_action_cdcl` (totally ordered) reads nothing missing.
#[verifier::rlimit(60)]
pub fn total_cdcl_ready(node: &Node, a: &Action, rv: &RelVars) -> (res: bool)
    ensures
        res == total_cdcl_possible(node@, a@, rv.deep_view()),
{
    let ghost n = node@;
    let ghost av = a@;
    let pre = match &a.precondition { Some(p) => p, None => { return false; } };
    assert(av.precondition == Some(pre.deep_view()));
    if node.passing_preconditions.len() > 0 && !renaming_possible_exec(&node.called, &a.parameters) {
        return false;
    }
    if !names_distinct_exec(rv) || !all_variables_exec(rv) {
        return false;
    }
    let renamed = update_passing_precondition(&node.called, &node.passing_preconditions, &a.parameters);
    assert(renamed.deep_view() =~= renamed_passing(n.passing_preconditions, n.called, av.parameters));
    let mut plist = clone_preconditions(pre);
    let mut r = renamed;
    plist.append(&mut r);
    assert(plist.deep_view() =~= total_action_preconditions(n, av));
    assert(n.problem.state == node.problem.state.deep_view());
    if !all_trimmable(&plist, rv, &node.problem.state) {
        return false;
    }
    let (r1, ok) = precon_trimmer(clone_relvars(rv), &plist, &node.problem, &node.problem.state);
    let ghost t0 = r1.deep_view();
    if !ok || node.called.1.len() == 0 {
        return true;
    }
    proof { lemma_first_unsettled(t0); }
    let mut i: usize = 0;
    while i < r1.len() && r1[i].2.len() == 1
        invariant
            t0 == r1.deep_view(),
            i <= r1.len(),
            forall|k: int| 0 <= k < i ==> (#[trigger] t0[k]).2.len() == 1,
        decreases r1.len() - i,
    {
        assert(t0[i as int] == r1@[i as int].deep_view());
        i = i + 1;
    }
    if i < r1.len() {
        assert(t0[i as int] == r1@[i as int].deep_view());
    }
    assert(i == first_unsettled(t0)) by {
        let f = first_unsettled(t0);
        if f < i { assert(t0[f].2.len() == 1); }
        if i < f { assert(t0[i as int].2.len() == 1); }
    }
    if i < r1.len() {
        return true;
    }
    let es = match &a.effect { Some(e) => e, None => { return false; } };
    assert(av.effect == Some(es.deep_view()));
    let both = es.len() > 0 && pre.len() > 0;
    if both && !nothing_checkable_exec(a, &node.problem.state, &r1) {
        return false;
    }
    let changes = both && action_would_result_in_nothing(&r1, a, &node.problem.state);
    assert(changes == changes_nothing(n, av, t0));
    if changes {
        return true;
    }
    if node.called.2.len() == 0 {
        return false;
    }
    let caller = &node.called.1[node.called.1.len() - 1].0;
    let idx = node.called.2[node.called.2.len() - 1];
    assert(n.called.1.last().0 == caller@);
    if idx < 1 || idx > caller.subtasks.len() {
        return false;
    }
    assert(caller@.subtasks[idx - 1] == caller.subtasks@[idx - 1].deep_view());
    r1.len() <= params_of(&caller.subtasks[idx - 1]).len()
}

} // verus!
