//! Splitting relevant variables on the equality constraints of a method.
use vstd::prelude::*;
use crate::datastructures::domain::Str;
use crate::datastructures::node::{RelVars, RelVarsModel, clone_relvars};
use crate::datastructures::domain::clone_strings;
use crate::text::contains_string;

verus! {

/// The last index of a relevant variable named `first` (0 when there is none).
pub open spec fn first_index(rv: RelVarsModel, first: Str) -> int
    decreases rv.len(),
{
    if rv.len() == 0 {
        0
    } else if rv.last().0 == first {
        rv.len() - 1
    } else {
        first_index(rv.drop_last(), first)
    }
}

/// The last index of a relevant variable named `second` but not `first` (0 when there is none).
pub open spec fn second_index(rv: RelVarsModel, first: Str, second: Str) -> int
    decreases rv.len(),
{
    if rv.len() == 0 {
        0
    } else if rv.last().0 != first && rv.last().0 == second {
        rv.len() - 1
    } else {
        second_index(rv.drop_last(), first, second)
    }
}

/// Relevant variables with two value lists replaced.
pub open spec fn with_values(rv: RelVarsModel, i1: int, v1: Seq<Str>, i2: int, v2: Seq<Str>) -> RelVarsModel {
    let r = rv.update(i1, (rv[i1].0, rv[i1].1, v1));
    r.update(i2, (r[i2].0, r[i2].1, v2))
}

/// The branches for one value `a` of the first variable: one for every equal value of the second.
pub open spec fn equal_branches_for(rv: RelVarsModel, i1: int, i2: int, a: Str, bs: Seq<Str>) -> Seq<RelVarsModel>
    decreases bs.len(),
{
    if bs.len() == 0 {
        Seq::empty()
    } else {
        let rest = equal_branches_for(rv, i1, i2, a, bs.drop_last());
        if a == bs.last() { rest.push(with_values(rv, i1, seq![a], i2, seq![bs.last()])) } else { rest }
    }
}

/// The branches of an equality constraint, for the values `avals` of the first variable.
pub open spec fn equal_branches(rv: RelVarsModel, i1: int, i2: int, avals: Seq<Str>) -> Seq<RelVarsModel>
    decreases avals.len(),
{
    if avals.len() == 0 {
        Seq::empty()
    } else {
        equal_branches(rv, i1, i2, avals.drop_last()) + equal_branches_for(rv, i1, i2, avals.last(), rv[i2].2)
    }
}

/// The result of an equality constraint: one branch for every pair of equal
/// values of the two variables, with both variables fixed to that value.
pub open spec fn constraint_equal_result(rv: RelVarsModel, c: (bool, Str, Str)) -> Seq<RelVarsModel> {
    let i1 = first_index(rv, c.1);
    let i2 = second_index(rv, c.1, c.2);
    equal_branches(rv, i1, i2, rv[i1].2)
}

/// The values of `l1` that `l2` holds, in order.
pub open spec fn kept_in(l1: Seq<Str>, l2: Seq<Str>) -> Seq<Str>
    decreases l1.len(),
{
    if l1.len() == 0 {
        Seq::empty()
    } else if l2.contains(l1.last()) {
        kept_in(l1.drop_last(), l2).push(l1.last())
    } else {
        kept_in(l1.drop_last(), l2)
    }
}

/// The values of `l1` that `l2` does not hold, in order.
pub open spec fn dropped_in(l1: Seq<Str>, l2: Seq<Str>) -> Seq<Str>
    decreases l1.len(),
{
    if l1.len() == 0 {
        Seq::empty()
    } else if l2.contains(l1.last()) {
        dropped_in(l1.drop_last(), l2)
    } else {
        dropped_in(l1.drop_last(), l2).push(l1.last())
    }
}

/// The index of the first occurrence of `v` in `l`.
pub open spec fn first_occurrence(l: Seq<Str>, v: Str) -> int {
    choose|k: int| 0 <= k < l.len() && l[k] == v && forall|j: int| 0 <= j < k ==> l[j] != v
}

/// The branches of an inequality constraint when both variables have several values:
/// one for every conflicting value `val`, where the first variable keeps its
/// values that do not conflict and `val`, and the second loses `val`.
pub open spec fn unequal_branches(rv: RelVarsModel, i1: int, i2: int, conflict_vals: Seq<Str>, all_conflicts: Seq<Str>) -> Seq<RelVarsModel>
    decreases conflict_vals.len(),
{
    if conflict_vals.len() == 0 {
        Seq::empty()
    } else {
        let val = conflict_vals.last();
        let l2 = rv[i2].2;
        unequal_branches(rv, i1, i2, conflict_vals.drop_last(), all_conflicts).push(
            with_values(rv, i1, dropped_in(rv[i1].2, all_conflicts).push(val), i2, l2.remove(first_occurrence(l2, val))))
    }
}

/// The result of an inequality constraint.
pub open spec fn constraint_unequal_result(rv: RelVarsModel, c: (bool, Str, Str)) -> Seq<RelVarsModel> {
    let i1 = first_index(rv, c.1);
    let i2 = second_index(rv, c.1, c.2);
    let l1 = rv[i1].2;
    let l2 = rv[i2].2;
    let conflict = kept_in(l1, l2);
    if l1.len() == 1 && l2.len() == 1 {
        if l2[0] != l1[0] { seq![rv] } else { Seq::empty() }
    } else if conflict.len() == 0 {
        seq![rv]
    } else if l1.len() == 1 {
        let r = rv.update(i2, (rv[i2].0, rv[i2].1, l2.remove(first_occurrence(l2, conflict[0]))));
        seq![r]
    } else if l2.len() == 1 {
        let r = rv.update(i1, (rv[i1].0, rv[i1].1, l1.remove(first_occurrence(l1, conflict[0]))));
        seq![r]
    } else {
        unequal_branches(rv, i1, i2, conflict, conflict)
    }
}

/// The result of one constraint on one list of relevant variables.
pub open spec fn constraint_result(rv: RelVarsModel, c: (bool, Str, Str)) -> Seq<RelVarsModel> {
    if c.0 { constraint_equal_result(rv, c) } else { constraint_unequal_result(rv, c) }
}

/// One constraint applied to every list of relevant variables, the last list first.
pub open spec fn constraint_stage(lists: Seq<RelVarsModel>, c: (bool, Str, Str)) -> Seq<RelVarsModel>
    decreases lists.len(),
{
    if lists.len() == 0 {
        Seq::empty()
    } else {
        constraint_result(lists.last(), c) + constraint_stage(lists.drop_last(), c)
    }
}

/// All the constraints applied in order, starting from one list of relevant variables.
pub open spec fn constraints_fold(rv: RelVarsModel, cs: Seq<(bool, Str, Str)>) -> Seq<RelVarsModel>
    decreases cs.len(),
{
    if cs.len() == 0 {
        seq![rv]
    } else {
        constraint_stage(constraints_fold(rv, cs.drop_last()), cs.last())
    }
}

/// The result of `check_constraints`: no constraint yields no list.
pub open spec fn check_constraints_result(rv: RelVarsModel, cs: Seq<(bool, Str, Str)>) -> Seq<RelVarsModel> {
    if cs.len() == 0 { Seq::empty() } else { constraints_fold(rv, cs) }
}

/// The indexes of the two variables of a constraint.
fn constraint_indexes(current_rel_vars: &RelVars, constraint: &(bool, String, String)) -> (res: (usize, usize))
    ensures
        res.0 == first_index(current_rel_vars.deep_view(), constraint.1@),
        res.1 == second_index(current_rel_vars.deep_view(), constraint.1@, constraint.2@),
        current_rel_vars.len() > 0 ==> res.0 < current_rel_vars.len() && res.1 < current_rel_vars.len(),
{
    let ghost rv = current_rel_vars.deep_view();
    let mut index_first: usize = 0;
    let mut index_second: usize = 0;
    let mut counting_int: usize = 0;
    while counting_int < current_rel_vars.len()
        invariant
            counting_int <= current_rel_vars.len(),
            rv == current_rel_vars.deep_view(),
            index_first == first_index(rv.take(counting_int as int), constraint.1@),
            index_second == second_index(rv.take(counting_int as int), constraint.1@, constraint.2@),
            counting_int > 0 ==> index_first < counting_int && index_second < counting_int,
            counting_int == 0 ==> index_first == 0 && index_second == 0,
        decreases current_rel_vars.len() - counting_int,
    {
        let param = &current_rel_vars[counting_int];
        assert(rv[counting_int as int] == param.deep_view());
        assert(rv.take(counting_int + 1).drop_last() =~= rv.take(counting_int as int));
        if param.0 == constraint.1 {
            index_first = counting_int;
        } else if param.0 == constraint.2 {
            index_second = counting_int;
        }
        counting_int = counting_int + 1;
    }
    assert(rv.take(counting_int as int) =~= rv);
    (index_first, index_second)
}

/// Relevant variables with two value lists replaced.
fn set_values(current_rel_vars: &RelVars, i1: usize, v1: Vec<String>, i2: usize, v2: Vec<String>) -> (res: RelVars)
    requires
        i1 < current_rel_vars.len(),
        i2 < current_rel_vars.len(),
    ensures
        res.deep_view() == with_values(current_rel_vars.deep_view(), i1 as int, v1.deep_view(), i2 as int, v2.deep_view()),
        res.len() == current_rel_vars.len(),
{
    let ghost rv = current_rel_vars.deep_view();
    let mut rel_var_clone = clone_relvars(current_rel_vars);
    let n1 = rel_var_clone[i1].0.clone();
    let t1 = rel_var_clone[i1].1.clone();
    rel_var_clone.set(i1, (n1, t1, v1));
    let ghost mid = rel_var_clone.deep_view();
    assert(mid =~= rv.update(i1 as int, (rv[i1 as int].0, rv[i1 as int].1, v1.deep_view())));
    let n2 = rel_var_clone[i2].0.clone();
    let t2 = rel_var_clone[i2].1.clone();
    rel_var_clone.set(i2, (n2, t2, v2));
    assert(rel_var_clone.deep_view() =~= mid.update(i2 as int, (mid[i2 as int].0, mid[i2 as int].1, v2.deep_view())));
    rel_var_clone
}

pub(crate) fn single(s: &String) -> (res: Vec<String>)
    ensures
        res.deep_view() == seq![s@],
{
    let mut v: Vec<String> = Vec::new();
    v.push(s.clone());
    assert(v.deep_view() =~= seq![s@]);
    v
}

/// Checks constraints where values are required to be equal.
fn constraint_equal(current_rel_vars: RelVars, constraint: &(bool, String, String)) -> (res: Vec<RelVars>)
    requires
        current_rel_vars.len() > 0,
    ensures
        res.deep_view() == constraint_equal_result(current_rel_vars.deep_view(), constraint.deep_view()),
        forall|k: int| 0 <= k < res.len() ==> (#[trigger] res@[k]).len() == current_rel_vars.len(),
{
    let ghost rv = current_rel_vars.deep_view();
    let (index_first, index_second) = constraint_indexes(&current_rel_vars, constraint);
    let mut relevant_variables_list: Vec<RelVars> = Vec::new();
    let firsts = &current_rel_vars[index_first].2;
    let seconds = &current_rel_vars[index_second].2;
    assert(rv[index_first as int].2 == firsts.deep_view());
    assert(rv[index_second as int].2 == seconds.deep_view());
    let mut a: usize = 0;
    while a < firsts.len()
        invariant
            a <= firsts.len(),
            rv == current_rel_vars.deep_view(),
            relevant_variables_list.deep_view() == equal_branches(rv, index_first as int, index_second as int, firsts.deep_view().take(a as int)),
            forall|k: int| 0 <= k < relevant_variables_list.len() ==> (#[trigger] relevant_variables_list@[k]).len() == current_rel_vars.len(),
        decreases firsts.len() - a,
    {
        let first_value = &firsts[a];
        assert(firsts.deep_view()[a as int] == first_value@);
        assert(firsts.deep_view().take(a + 1).drop_last() =~= firsts.deep_view().take(a as int));
        let ghost base = relevant_variables_list.deep_view();
        let mut b: usize = 0;
        while b < seconds.len()
            invariant
                a < firsts.len(),
                b <= seconds.len(),
                rv == current_rel_vars.deep_view(),
                relevant_variables_list.deep_view() == base + equal_branches_for(rv, index_first as int, index_second as int, first_value@, seconds.deep_view().take(b as int)),
                forall|k: int| 0 <= k < relevant_variables_list.len() ==> (#[trigger] relevant_variables_list@[k]).len() == current_rel_vars.len(),
            decreases seconds.len() - b,
        {
            let second_value = &seconds[b];
            assert(seconds.deep_view()[b as int] == second_value@);
            assert(seconds.deep_view().take(b + 1).drop_last() =~= seconds.deep_view().take(b as int));
            let ghost before = relevant_variables_list.deep_view();
            if *first_value == *second_value {
                let branch = set_values(&current_rel_vars, index_first, single(first_value), index_second, single(second_value));
                relevant_variables_list.push(branch);
                assert(relevant_variables_list.deep_view() =~= before.push(
                    with_values(rv, index_first as int, seq![first_value@], index_second as int, seq![second_value@])));
            }
            assert(relevant_variables_list.deep_view() =~= base + equal_branches_for(rv, index_first as int, index_second as int, first_value@, seconds.deep_view().take(b + 1)));
            b = b + 1;
        }
        assert(seconds.deep_view().take(b as int) =~= seconds.deep_view());
        assert(relevant_variables_list.deep_view() =~= equal_branches(rv, index_first as int, index_second as int, firsts.deep_view().take(a + 1)));
        a = a + 1;
    }
    assert(firsts.deep_view().take(a as int) =~= firsts.deep_view());
    relevant_variables_list
}

/// The values of `l1` that `l2` holds (`keep`) or does not hold (`!keep`), in order.
pub(crate) fn filter_by(l1: &Vec<String>, l2: &Vec<String>, keep: bool) -> (res: Vec<String>)
    ensures
        keep ==> res.deep_view() == kept_in(l1.deep_view(), l2.deep_view()),
        !keep ==> res.deep_view() == dropped_in(l1.deep_view(), l2.deep_view()),
{
    let ghost a = l1.deep_view();
    let ghost b = l2.deep_view();
    let mut res: Vec<String> = Vec::new();
    let mut i: usize = 0;
    while i < l1.len()
        invariant
            i <= l1.len(),
            keep ==> res.deep_view() == kept_in(a.take(i as int), b),
            !keep ==> res.deep_view() == dropped_in(a.take(i as int), b),
        decreases l1.len() - i,
    {
        assert(a[i as int] == l1@[i as int]@);
        assert(a.take(i + 1).drop_last() =~= a.take(i as int));
        let ghost before = res.deep_view();
        if contains_string(l2, &l1[i]) == keep {
            res.push(l1[i].clone());
            assert(res.deep_view() =~= before.push(a[i as int]));
        }
        i = i + 1;
    }
    assert(a.take(i as int) =~= a);
    res
}

/// `l` without the first occurrence of `v`, which it holds.
pub(crate) fn remove_first_occurrence(l: &Vec<String>, v: &String) -> (res: Vec<String>)
    requires
        l.deep_view().contains(v@),
    ensures
        res.deep_view() == l.deep_view().remove(first_occurrence(l.deep_view(), v@)),
{
    let ghost s = l.deep_view();
    let mut k: usize = 0;
    while k < l.len() && l[k] != *v
        invariant
            k <= l.len(),
            s.contains(v@),
            forall|j: int| 0 <= j < k ==> s[j] != v@,
        decreases l.len() - k,
    {
        assert(s[k as int] == l@[k as int]@);
        k = k + 1;
    }
    if k == l.len() {
        proof {
            let j = choose|j: int| 0 <= j < s.len() && s[j] == v@;
            assert(s[j] != v@);
        }
    }
    assert(s[k as int] == v@);
    assert(first_occurrence(s, v@) == k) by {
        let f = first_occurrence(s, v@);
        assert(0 <= k < s.len() && s[k as int] == v@ && forall|j: int| 0 <= j < k ==> s[j] != v@);
        if f < k { assert(s[f] != v@); } else if f > k { assert(s[k as int] != v@); }
    }
    let mut res = clone_strings(l);
    assert(res.deep_view().len() == s.len());
    res.remove(k);
    assert(res.deep_view() =~= s.remove(k as int));
    res
}

/// Relevant variables with one value list replaced.
pub(crate) fn set_one(current_rel_vars: &RelVars, i: usize, v: Vec<String>) -> (res: RelVars)
    requires
        i < current_rel_vars.len(),
    ensures
        res.deep_view() == current_rel_vars.deep_view().update(i as int,
            (current_rel_vars.deep_view()[i as int].0, current_rel_vars.deep_view()[i as int].1, v.deep_view())),
        res.len() == current_rel_vars.len(),
{
    let ghost rv = current_rel_vars.deep_view();
    let mut r = clone_relvars(current_rel_vars);
    let n = r[i].0.clone();
    let t = r[i].1.clone();
    r.set(i, (n, t, v));
    assert(r.deep_view() =~= rv.update(i as int, (rv[i as int].0, rv[i as int].1, v.deep_view())));
    r
}

/// Checks constraints where values are required to be unequal.
#[verifier::rlimit(40)]
fn constraint_unequal(current_rel_vars: RelVars, constraint: &(bool, String, String)) -> (res: Vec<RelVars>)
    requires
        current_rel_vars.len() > 0,
    ensures
        res.deep_view() == constraint_unequal_result(current_rel_vars.deep_view(), constraint.deep_view()),
        forall|k: int| 0 <= k < res.len() ==> (#[trigger] res@[k]).len() == current_rel_vars.len(),
{
    let ghost rv = current_rel_vars.deep_view();
    let (index_first, index_second) = constraint_indexes(&current_rel_vars, constraint);
    let mut relevant_variables_list: Vec<RelVars> = Vec::new();
    let l1 = &current_rel_vars[index_first].2;
    let l2 = &current_rel_vars[index_second].2;
    assert(rv[index_first as int].2 == l1.deep_view());
    assert(rv[index_second as int].2 == l2.deep_view());
    assert(l1.deep_view().len() == l1.len() && l2.deep_view().len() == l2.len());
    if l1.len() == 1 && l2.len() == 1 {
        assert(l1.deep_view()[0] == l1@[0]@ && l2.deep_view()[0] == l2@[0]@);
        if l2[0] != l1[0] {
            relevant_variables_list.push(clone_relvars(&current_rel_vars));
            assert(relevant_variables_list.deep_view() =~= seq![rv]);
        } else {
            assert(relevant_variables_list.deep_view() =~= Seq::<RelVarsModel>::empty());
        }
        return relevant_variables_list;
    }
    let conflict_value_list = filter_by(l1, l2, true);
    if conflict_value_list.len() == 0 {
        assert(conflict_value_list.deep_view().len() == 0);
        relevant_variables_list.push(clone_relvars(&current_rel_vars));
        assert(relevant_variables_list.deep_view() =~= seq![rv]);
        return relevant_variables_list;
    }
    assert(conflict_value_list.deep_view()[0] == conflict_value_list@[0]@);
    if l1.len() == 1 {
        proof { lemma_kept_in_contained(l1.deep_view(), l2.deep_view(), 0); }
        let new_l2 = remove_first_occurrence(l2, &conflict_value_list[0]);
        relevant_variables_list.push(set_one(&current_rel_vars, index_second, new_l2));
        assert(relevant_variables_list.deep_view() =~= constraint_unequal_result(rv, constraint.deep_view()));
        return relevant_variables_list;
    } else if l2.len() == 1 {
        proof { lemma_kept_in_from_first(l1.deep_view(), l2.deep_view(), 0); }
        let new_l1 = remove_first_occurrence(l1, &conflict_value_list[0]);
        relevant_variables_list.push(set_one(&current_rel_vars, index_first, new_l1));
        assert(relevant_variables_list.deep_view() =~= constraint_unequal_result(rv, constraint.deep_view()));
        return relevant_variables_list;
    }
    let ghost conflicts = conflict_value_list.deep_view();
    let list_one_base = filter_by(l1, &conflict_value_list, false);
    let mut c: usize = 0;
    while c < conflict_value_list.len()
        invariant
            c <= conflict_value_list.len(),
            rv == current_rel_vars.deep_view(),
            conflicts == conflict_value_list.deep_view(),
            conflicts == kept_in(l1.deep_view(), l2.deep_view()),
            list_one_base.deep_view() == dropped_in(l1.deep_view(), conflicts),
            relevant_variables_list.deep_view() == unequal_branches(rv, index_first as int, index_second as int, conflicts.take(c as int), conflicts),
            forall|k: int| 0 <= k < relevant_variables_list.len() ==> (#[trigger] relevant_variables_list@[k]).len() == current_rel_vars.len(),
        decreases conflict_value_list.len() - c,
    {
        let val = &conflict_value_list[c];
        assert(conflicts[c as int] == val@);
        assert(conflicts.take(c + 1).drop_last() =~= conflicts.take(c as int));
        let mut list_one = clone_strings(&list_one_base);
        let ghost lob = list_one.deep_view();
        list_one.push(val.clone());
        assert(list_one.deep_view() =~= lob.push(val@));
        proof { lemma_kept_in_contained(l1.deep_view(), l2.deep_view(), c as int); }
        let list_two = remove_first_occurrence(l2, val);
        let branch = set_values(&current_rel_vars, index_first, list_one, index_second, list_two);
        let ghost before = relevant_variables_list.deep_view();
        relevant_variables_list.push(branch);
        assert(relevant_variables_list.deep_view() =~= before.push(branch.deep_view()));
        c = c + 1;
    }
    assert(conflicts.take(c as int) =~= conflicts);
    relevant_variables_list
}

/// Every value that `kept_in` keeps is held by the second list.
pub proof fn lemma_kept_in_contained(l1: Seq<Str>, l2: Seq<Str>, k: int)
    requires
        0 <= k < kept_in(l1, l2).len(),
    ensures
        l2.contains(kept_in(l1, l2)[k]),
    decreases l1.len(),
{
    if l1.len() > 0 {
        if l2.contains(l1.last()) {
            if k < kept_in(l1.drop_last(), l2).len() {
                lemma_kept_in_contained(l1.drop_last(), l2, k);
            }
        } else {
            lemma_kept_in_contained(l1.drop_last(), l2, k);
        }
    }
}

/// Every value that `kept_in` keeps is held by the first list.
pub proof fn lemma_kept_in_from_first(l1: Seq<Str>, l2: Seq<Str>, k: int)
    requires
        0 <= k < kept_in(l1, l2).len(),
    ensures
        l1.contains(kept_in(l1, l2)[k]),
    decreases l1.len(),
{
    if l1.len() > 0 {
        let prev = kept_in(l1.drop_last(), l2);
        if k < prev.len() {
            lemma_kept_in_from_first(l1.drop_last(), l2, k);
            let j = choose|j: int| 0 <= j < l1.drop_last().len() && l1.drop_last()[j] == prev[k];
            assert(l1[j] == prev[k]);
        } else {
            assert(kept_in(l1, l2)[k] == l1[l1.len() - 1]);
        }
    }
}

/// `kept_in` keeps no more values than the first list has.
pub proof fn lemma_kept_in_len(l1: Seq<Str>, l2: Seq<Str>)
    ensures
        kept_in(l1, l2).len() <= l1.len(),
    decreases l1.len(),
{
    if l1.len() > 0 {
        lemma_kept_in_len(l1.drop_last(), l2);
    }
}

/// Returns the lists of relevant variables that fulfil the constraints.
pub fn check_constraints(relevant_variables: &RelVars, constraints: &Vec<(bool, String, String)>) -> (res: Vec<RelVars>)
    requires
        relevant_variables.len() > 0,
    ensures
        res.deep_view() == check_constraints_result(relevant_variables.deep_view(), constraints.deep_view()),
{
    let ghost rv = relevant_variables.deep_view();
    let ghost cs = constraints.deep_view();
    let mut intermediate_var_list: Vec<RelVars> = Vec::new();
    let mut result: Vec<RelVars> = Vec::new();
    intermediate_var_list.push(clone_relvars(relevant_variables));
    assert(intermediate_var_list.deep_view() =~= seq![rv]);
    let mut i: usize = 0;
    while i < constraints.len()
        invariant
            i <= constraints.len(),
            cs == constraints.deep_view(),
            rv == relevant_variables.deep_view(),
            intermediate_var_list.deep_view() == constraints_fold(rv, cs.take(i as int)),
            i > 0 ==> result.deep_view() == constraints_fold(rv, cs.take(i as int)),
            i == 0 ==> result.deep_view() == Seq::<RelVarsModel>::empty(),
            forall|k: int| 0 <= k < intermediate_var_list.len() ==> (#[trigger] intermediate_var_list@[k]).len() == relevant_variables.len(),
        decreases constraints.len() - i,
    {
        let constraint = &constraints[i];
        assert(cs[i as int] == constraint.deep_view());
        assert(cs.take(i + 1).drop_last() =~= cs.take(i as int));
        let ghost stage_input = intermediate_var_list.deep_view();
        result = Vec::new();
        assert(result.deep_view() =~= Seq::<RelVarsModel>::empty());
        while intermediate_var_list.len() > 0
            invariant
                i < constraints.len(),
                constraint == &constraints@[i as int],
                result.deep_view() + constraint_stage(intermediate_var_list.deep_view(), constraint.deep_view())
                    == constraint_stage(stage_input, constraint.deep_view()),
                forall|k: int| 0 <= k < intermediate_var_list.len() ==> (#[trigger] intermediate_var_list@[k]).len() == relevant_variables.len(),
                forall|k: int| 0 <= k < result.len() ==> (#[trigger] result@[k]).len() == relevant_variables.len(),
            decreases intermediate_var_list.len(),
        {
            let ghost inter = intermediate_var_list.deep_view();
            let ghost res_before = result.deep_view();
            let current_rel_vars = intermediate_var_list.pop().unwrap();
            assert(inter.last() == current_rel_vars.deep_view());
            assert(intermediate_var_list.deep_view() =~= inter.drop_last());
            let relevant_variables_list = if constraint.0 {
                constraint_equal(current_rel_vars, constraint)
            } else {
                constraint_unequal(current_rel_vars, constraint)
            };
            let mut r: usize = 0;
            while r < relevant_variables_list.len()
                invariant
                    r <= relevant_variables_list.len(),
                    result.deep_view() == res_before + relevant_variables_list.deep_view().take(r as int),
                    forall|k: int| 0 <= k < result.len() ==> (#[trigger] result@[k]).len() == relevant_variables.len(),
                decreases relevant_variables_list.len() - r,
            {
                let ghost rb = result.deep_view();
                result.push(clone_relvars(&relevant_variables_list[r]));
                assert(relevant_variables_list.deep_view()[r as int] == relevant_variables_list@[r as int].deep_view());
                assert(result.deep_view() =~= rb.push(relevant_variables_list.deep_view()[r as int]));
                assert(relevant_variables_list.deep_view().take(r + 1) =~= relevant_variables_list.deep_view().take(r as int).push(relevant_variables_list.deep_view()[r as int]));
                r = r + 1;
            }
            assert(relevant_variables_list.deep_view().take(r as int) =~= relevant_variables_list.deep_view());
            assert(result.deep_view() + constraint_stage(intermediate_var_list.deep_view(), constraint.deep_view())
                =~= res_before + constraint_stage(inter, constraint.deep_view()));
        }
        assert(result.deep_view() =~= constraint_stage(stage_input, constraint.deep_view()));
        intermediate_var_list = Vec::new();
        let mut r: usize = 0;
        while r < result.len()
            invariant
                r <= result.len(),
                intermediate_var_list.deep_view() == result.deep_view().take(r as int),
                forall|k: int| 0 <= k < intermediate_var_list.len() ==> (#[trigger] intermediate_var_list@[k]).len() == relevant_variables.len(),
                forall|k: int| 0 <= k < result.len() ==> (#[trigger] result@[k]).len() == relevant_variables.len(),
            decreases result.len() - r,
        {
            let ghost ib = intermediate_var_list.deep_view();
            intermediate_var_list.push(clone_relvars(&result[r]));
            assert(result.deep_view()[r as int] == result@[r as int].deep_view());
            assert(intermediate_var_list.deep_view() =~= result.deep_view().take(r + 1));
            r = r + 1;
        }
        assert(result.deep_view().take(r as int) =~= result.deep_view());
        i = i + 1;
    }
    assert(cs.take(i as int) =~= cs);
    result
}

} // verus!
