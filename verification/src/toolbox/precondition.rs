//! Checking preconditions against a state, and trimming the values of
//! relevant variables that cannot satisfy them.
use vstd::prelude::*;
use crate::datastructures::domain::{Str, Precondition, PreconditionModel};
use crate::datastructures::node::{RelVars, RelVarsModel};
use crate::datastructures::problem::{Problem, ProblemModel, StateModel};
use crate::text::{is_var, is_variable, contains_string};
use crate::toolbox::relvars::{has_name, first_named, lemma_first_named};
use crate::toolbox::constraints::{single, set_one, kept_in, dropped_in, first_occurrence, filter_by, remove_first_occurrence};
use crate::datastructures::node::clone_relvars;
use crate::datastructures::domain::clone_strings;

verus! {

/// Whether no two relevant variables share a name.
///
/// This is an invariant of every caller: a node's relevant variables are
/// built from a method's or an action's parameters with duplicates removed
/// (see `check_duplicates`), and the search tests it again before each
/// step. The checks and trims of this module find a variable by its name,
/// so they require it.
pub open spec fn names_distinct(rv: RelVarsModel) -> bool {
    forall|i: int, j: int| 0 <= i < j < rv.len() ==> (#[trigger] rv[i]).0 != (#[trigger] rv[j]).0
}

/// The index of the relevant variable with the given name, if there is one.
fn find_relvar(rv: &RelVars, name: &String) -> (res: Option<usize>)
    ensures
        res is Some <==> has_name(rv.deep_view(), name@),
        res is Some ==> res.unwrap() < rv.len() && res.unwrap() == first_named(rv.deep_view(), name@),
{
    let ghost s = rv.deep_view();
    let mut j: usize = 0;
    while j < rv.len()
        invariant
            s == rv.deep_view(),
            j <= rv.len(),
            forall|k: int| 0 <= k < j ==> (#[trigger] s[k]).0 != name@,
        decreases rv.len() - j,
    {
        assert(s[j as int] == rv@[j as int].deep_view());
        if rv[j].0 == *name {
            proof { lemma_first_named(s, name@, j as int); }
            return Some(j);
        }
        j = j + 1;
    }
    None
}

/// How often `x` occurs in `s`.
pub open spec fn count_of(s: Seq<Str>, x: Str) -> nat
    decreases s.len(),
{
    if s.len() == 0 {
        0
    } else {
        count_of(s.drop_last(), x) + (if s.last() == x { 1nat } else { 0nat })
    }
}

fn count_in(s: &Vec<String>, x: &String) -> (res: usize)
    ensures
        res == count_of(s.deep_view(), x@),
{
    let ghost d = s.deep_view();
    let mut c: usize = 0;
    let mut i: usize = 0;
    while i < s.len()
        invariant
            d == s.deep_view(),
            i <= s.len(),
            c <= i,
            c == count_of(d.take(i as int), x@),
        decreases s.len() - i,
    {
        assert(d.take(i + 1).drop_last() =~= d.take(i as int));
        assert(d[i as int] == s@[i as int]@);
        if s[i] == *x {
            c = c + 1;
        }
        i = i + 1;
    }
    assert(d.take(i as int) =~= d);
    c
}

/// The lists of values that the arguments of a literal may take: a constant
/// only itself, a variable the values of its relevant variable; a variable
/// without a relevant variable adds no list.
pub open spec fn arg_values(args: Seq<Str>, rv: RelVarsModel) -> Seq<Seq<Str>>
    decreases args.len(),
{
    if args.len() == 0 {
        Seq::empty()
    } else {
        let prev = arg_values(args.drop_last(), rv);
        let a = args.last();
        if !is_var(a) {
            prev.push(seq![a])
        } else if has_name(rv, a) {
            prev.push(rv[first_named(rv, a)].2)
        } else {
            prev
        }
    }
}

/// The number of matches of the first `n` arguments of a fact: for each
/// position, how often the argument occurs in the list of that position.
pub open spec fn match_count(fargs: Seq<Str>, vl: Seq<Seq<Str>>, n: int) -> nat
    decreases n,
{
    if n <= 0 {
        0
    } else {
        match_count(fargs, vl, n - 1) + count_of(vl[n - 1], fargs[n - 1])
    }
}

/// Whether a fact supports a literal whose positions may take the values `vl`.
pub open spec fn supports(fact: (Str, Seq<Str>), name: Str, vl: Seq<Seq<Str>>) -> bool {
    fact.0 == name && match_count(fact.1, vl, fact.1.len() as int) == fact.1.len()
}

/// Whether some fact of the state supports the literal.
pub open spec fn literal_holds(state: StateModel, name: Str, vl: Seq<Seq<Str>>) -> bool {
    exists|i: int| 0 <= i < state.len() && supports(#[trigger] state[i], name, vl)
}

/// Whether a relevant variable named `name` may take a value listed in `listed`.
pub open spec fn some_value_listed(rv: RelVarsModel, name: Str, listed: Seq<Str>) -> bool {
    exists|j: int, k: int|
        0 <= j < rv.len() && 0 <= k < rv[j].2.len() && (#[trigger] rv[j]).0 == name && listed.contains(#[trigger] rv[j].2[k])
}

/// The names of the objects declared with type `t`.
pub open spec fn objects_declared(objects: Seq<(Str, Str, Seq<Str>)>, t: Str) -> Seq<Str>
    decreases objects.len(),
{
    if objects.len() == 0 {
        Seq::empty()
    } else {
        let rest = objects_declared(objects.drop_last(), t);
        if objects.last().1 == t { rest.push(objects.last().0) } else { rest }
    }
}

/// Whether one argument of a fact matches one argument of the literal of a
/// `forall`, where the bound variable `var` stands for `value`.
pub open spec fn position_hit(value: Str, fa: Str, ia: Str, var: Str, rv: RelVarsModel) -> nat {
    if ia == var {
        if value == fa { 1 } else { 0 }
    } else if has_name(rv, ia) && rv[first_named(rv, ia)].2.contains(fa) {
        1
    } else {
        0
    }
}

/// The number of hits over the first `n` arguments of the literal.
pub open spec fn forall_count(value: Str, fargs: Seq<Str>, iargs: Seq<Str>, var: Str, rv: RelVarsModel, n: int) -> nat
    decreases n,
{
    if n <= 0 {
        0
    } else {
        forall_count(value, fargs, iargs, var, rv, n - 1) + position_hit(value, fargs[n - 1], iargs[n - 1], var, rv)
    }
}

/// Whether, for some object of the bound variable's type, a fact of the
/// state matches the literal of a `forall` in all its arguments.
pub open spec fn forall_matched(state: StateModel, objects: Seq<Str>, lit: (bool, Str, Seq<Str>), var: Str, rv: RelVarsModel) -> bool {
    exists|o: int, i: int|
        0 <= o < objects.len() && 0 <= i < state.len() && (#[trigger] state[i]).0 == lit.1
            && forall_count(#[trigger] objects[o], state[i].1, lit.2, var, rv, lit.2.len() as int) == state[i].1.len()
}

/// What `check_precondition` answers: a literal (kind 0) holds when a fact of
/// the state supports it, its negation (kind 1) when none does; an equality
/// or inequality (kinds 2 and 3) when a relevant variable named like the
/// precondition may take one of its values; a `forall` (kind 4) whose literal
/// is negated when no object of the bound type matches a fact of the state,
/// and always when its literal is positive.
pub open spec fn precondition_holds(p: PreconditionModel, rv: RelVarsModel, problem: ProblemModel) -> bool {
    if p.0 == 0 || p.0 == 1 {
        let found = literal_holds(problem.state, p.1, arg_values(p.2, rv));
        if p.0 == 0 { found } else { !found }
    } else if p.0 == 2 || p.0 == 3 {
        some_value_listed(rv, p.1, p.2)
    } else {
        let f = p.3.unwrap();
        let lit = f.1[0];
        lit.0 || !forall_matched(problem.state, objects_declared(problem.objects, f.0.1), lit, f.0.0, rv)
    }
}

/// The inputs on which `check_precondition` is defined: a known kind, facts
/// that do not outnumber the lists of a literal's arguments, and a `forall`
/// with a literal whose facts have at least as many arguments as it.
pub open spec fn precondition_checkable(p: PreconditionModel, rv: RelVarsModel, state: StateModel) -> bool {
    &&& 0 <= p.0 <= 4
    &&& (p.0 == 0 || p.0 == 1) ==> forall|i: int|
        0 <= i < state.len() && (#[trigger] state[i]).0 == p.1 ==> state[i].1.len() <= arg_values(p.2, rv).len()
    &&& p.0 == 4 ==> {
        &&& p.3 is Some
        &&& p.3.unwrap().1.len() >= 1
        &&& forall|i: int|
            0 <= i < state.len() && (#[trigger] state[i]).0 == p.3.unwrap().1[0].1 ==> state[i].1.len() >= p.3.unwrap().1[0].2.len()
    }
}

proof fn lemma_match_count_mono(fargs: Seq<Str>, vl: Seq<Seq<Str>>, n: int, m: int)
    requires
        n <= m,
    ensures
        match_count(fargs, vl, n) <= match_count(fargs, vl, m),
    decreases m - n,
{
    if n < m {
        lemma_match_count_mono(fargs, vl, n, m - 1);
    }
}

pub(crate) fn arg_value_lists(args: &Vec<String>, rv: &RelVars) -> (res: Vec<Vec<String>>)
    requires
        names_distinct(rv.deep_view()),
    ensures
        res.deep_view() == arg_values(args.deep_view(), rv.deep_view()),
{
    let ghost a = args.deep_view();
    let ghost s = rv.deep_view();
    let mut res: Vec<Vec<String>> = Vec::new();
    let mut i: usize = 0;
    while i < args.len()
        invariant
            a == args.deep_view(),
            s == rv.deep_view(),
            names_distinct(s),
            i <= args.len(),
            res.deep_view() == arg_values(a.take(i as int), s),
        decreases args.len() - i,
    {
        assert(a.take(i + 1).drop_last() =~= a.take(i as int));
        assert(a[i as int] == args@[i as int]@);
        let ghost before = res.deep_view();
        if !is_variable(&args[i]) {
            let mut single: Vec<String> = Vec::new();
            single.push(args[i].clone());
            res.push(single);
            assert(single.deep_view() =~= seq![a[i as int]]);
            assert(res.deep_view() =~= before.push(seq![a[i as int]]));
        } else {
            match find_relvar(rv, &args[i]) {
                Some(j) => {
                    assert(s[j as int] == rv@[j as int].deep_view());
                    res.push(rv[j].2.clone());
                    assert(res.deep_view() =~= before.push(s[j as int].2));
                },
                None => {},
            }
        }
        i = i + 1;
    }
    assert(a.take(i as int) =~= a);
    res
}

fn counts_match(fargs: &Vec<String>, vl: &Vec<Vec<String>>) -> (res: bool)
    requires
        fargs.len() <= vl.len(),
    ensures
        res == (match_count(fargs.deep_view(), vl.deep_view(), fargs.len() as int) == fargs.len()),
{
    let ghost f = fargs.deep_view();
    let ghost v = vl.deep_view();
    let mut sum: usize = 0;
    let mut n: usize = 0;
    while n < fargs.len()
        invariant
            f == fargs.deep_view(),
            v == vl.deep_view(),
            fargs.len() <= vl.len(),
            n <= fargs.len(),
            sum <= fargs.len(),
            sum == match_count(f, v, n as int),
        decreases fargs.len() - n,
    {
        assert(v[n as int] == vl@[n as int].deep_view());
        assert(f[n as int] == fargs@[n as int]@);
        let c = count_in(&vl[n], &fargs[n]);
        if c > fargs.len() - sum {
            proof { lemma_match_count_mono(f, v, n + 1, fargs.len() as int); }
            return false;
        }
        sum = sum + c;
        n = n + 1;
    }
    sum == fargs.len()
}

fn literal_found(state: &Vec<(String, Vec<String>)>, name: &String, vl: &Vec<Vec<String>>) -> (res: bool)
    requires
        forall|i: int| 0 <= i < state.len() && (#[trigger] state.deep_view()[i]).0 == name@ ==> state.deep_view()[i].1.len() <= vl.len(),
    ensures
        res == literal_holds(state.deep_view(), name@, vl.deep_view()),
{
    let ghost st = state.deep_view();
    let mut i: usize = 0;
    while i < state.len()
        invariant
            st == state.deep_view(),
            i <= state.len(),
            forall|k: int| 0 <= k < i ==> !supports(#[trigger] st[k], name@, vl.deep_view()),
        decreases state.len() - i,
    {
        assert(st[i as int] == state@[i as int].deep_view());
        if state[i].0 == *name {
            if counts_match(&state[i].1, vl) {
                assert(supports(st[i as int], name@, vl.deep_view()));
                return true;
            }
        }
        i = i + 1;
    }
    false
}

/// The names of the objects declared with type `t`.
fn objects_with_declared_type(objects: &Vec<(String, String, Vec<String>)>, t: &String) -> (res: Vec<String>)
    ensures
        res.deep_view() == objects_declared(objects.deep_view(), t@),
{
    let ghost o = objects.deep_view();
    let mut res: Vec<String> = Vec::new();
    let mut i: usize = 0;
    while i < objects.len()
        invariant
            o == objects.deep_view(),
            i <= objects.len(),
            res.deep_view() == objects_declared(o.take(i as int), t@),
        decreases objects.len() - i,
    {
        assert(o.take(i + 1).drop_last() =~= o.take(i as int));
        assert(o[i as int] == objects@[i as int].deep_view());
        let ghost before = res.deep_view();
        if objects[i].1 == *t {
            res.push(objects[i].0.clone());
            assert(res.deep_view() =~= before.push(o[i as int].0));
        }
        i = i + 1;
    }
    assert(o.take(i as int) =~= o);
    res
}

fn forall_hits(value: &String, fargs: &Vec<String>, iargs: &Vec<String>, var: &String, rv: &RelVars) -> (res: usize)
    requires
        fargs.len() >= iargs.len(),
        names_distinct(rv.deep_view()),
    ensures
        res == forall_count(value@, fargs.deep_view(), iargs.deep_view(), var@, rv.deep_view(), iargs.len() as int),
{
    let ghost f = fargs.deep_view();
    let ghost ia = iargs.deep_view();
    let ghost s = rv.deep_view();
    let mut sum: usize = 0;
    let mut n: usize = 0;
    while n < iargs.len()
        invariant
            f == fargs.deep_view(),
            ia == iargs.deep_view(),
            s == rv.deep_view(),
            names_distinct(s),
            fargs.len() >= iargs.len(),
            n <= iargs.len(),
            sum <= n,
            sum == forall_count(value@, f, ia, var@, s, n as int),
        decreases iargs.len() - n,
    {
        assert(f[n as int] == fargs@[n as int]@);
        assert(ia[n as int] == iargs@[n as int]@);
        if iargs[n] == *var {
            if *value == fargs[n] {
                sum = sum + 1;
            }
        } else {
            match find_relvar(rv, &iargs[n]) {
                Some(j) => {
                    assert(s[j as int] == rv@[j as int].deep_view());
                    if contains_string(&rv[j].2, &fargs[n]) {
                        sum = sum + 1;
                    }
                },
                None => {},
            }
        }
        n = n + 1;
    }
    sum
}

fn forall_found(state: &Vec<(String, Vec<String>)>, objects: &Vec<String>, lit: &(bool, String, Vec<String>), var: &String, rv: &RelVars) -> (res: bool)
    requires
        names_distinct(rv.deep_view()),
        forall|i: int| 0 <= i < state.len() && (#[trigger] state.deep_view()[i]).0 == lit.1@ ==> state.deep_view()[i].1.len() >= lit.2.len(),
    ensures
        res == forall_matched(state.deep_view(), objects.deep_view(), lit.deep_view(), var@, rv.deep_view()),
{
    let ghost st = state.deep_view();
    let ghost ob = objects.deep_view();
    let ghost l = lit.deep_view();
    let mut o: usize = 0;
    while o < objects.len()
        invariant
            st == state.deep_view(),
            ob == objects.deep_view(),
            l == lit.deep_view(),
            o <= objects.len(),
            forall|p: int, i: int| 0 <= p < o && 0 <= i < st.len() && (#[trigger] st[i]).0 == l.1
                ==> forall_count(#[trigger] ob[p], st[i].1, l.2, var@, rv.deep_view(), l.2.len() as int) != st[i].1.len(),
        decreases objects.len() - o,
    {
        assert(ob[o as int] == objects@[o as int]@);
        let mut i: usize = 0;
        while i < state.len()
            invariant
                st == state.deep_view(),
                ob == objects.deep_view(),
                l == lit.deep_view(),
                o < objects.len(),
                i <= state.len(),
                forall|p: int, k: int| 0 <= p < o && 0 <= k < st.len() && (#[trigger] st[k]).0 == l.1
                    ==> forall_count(#[trigger] ob[p], st[k].1, l.2, var@, rv.deep_view(), l.2.len() as int) != st[k].1.len(),
                forall|k: int| 0 <= k < i && (#[trigger] st[k]).0 == l.1
                    ==> forall_count(ob[o as int], st[k].1, l.2, var@, rv.deep_view(), l.2.len() as int) != st[k].1.len(),
            decreases state.len() - i,
        {
            assert(st[i as int] == state@[i as int].deep_view());
            if state[i].0 == lit.1 {
                let hits = forall_hits(&objects[o], &state[i].1, &lit.2, var, rv);
                if hits == state[i].1.len() {
                    assert(forall_matched(st, ob, l, var@, rv.deep_view()));
                    return true;
                }
            }
            i = i + 1;
        }
        o = o + 1;
    }
    false
}

/// Checks a given precondition against the state of a problem, with the
/// values that the relevant variables may take.
pub fn check_precondition(precondition: &Precondition, relevant_variables: &RelVars, problem: &Problem) -> (res: bool)
    requires
        names_distinct(relevant_variables.deep_view()),
        precondition_checkable(precondition.deep_view(), relevant_variables.deep_view(), problem.state.deep_view()),
    ensures
        res == precondition_holds(precondition.deep_view(), relevant_variables.deep_view(), problem@),
{
    if precondition.0 == 0 || precondition.0 == 1 {
        let vl = arg_value_lists(&precondition.2, relevant_variables);
        let found = literal_found(&problem.state, &precondition.1, &vl);
        if precondition.0 == 0 { found } else { !found }
    } else if precondition.0 == 2 || precondition.0 == 3 {
        let ghost s = relevant_variables.deep_view();
        let ghost listed = precondition.2.deep_view();
        let mut j: usize = 0;
        while j < relevant_variables.len()
            invariant
                s == relevant_variables.deep_view(),
                listed == precondition.2.deep_view(),
                j <= relevant_variables.len(),
                forall|q: int, k: int| 0 <= q < j && 0 <= k < s[q].2.len() && (#[trigger] s[q]).0 == precondition.1@
                    ==> !listed.contains(#[trigger] s[q].2[k]),
            decreases relevant_variables.len() - j,
        {
            assert(s[j as int] == relevant_variables@[j as int].deep_view());
            if relevant_variables[j].0 == precondition.1 {
                let vals = &relevant_variables[j].2;
                let mut k: usize = 0;
                while k < vals.len()
                    invariant
                        s == relevant_variables.deep_view(),
                        listed == precondition.2.deep_view(),
                        j < relevant_variables.len(),
                        vals == &relevant_variables@[j as int].2,
                        s[j as int].2 == vals.deep_view(),
                        k <= vals.len(),
                        forall|m: int| 0 <= m < k ==> !listed.contains(#[trigger] s[j as int].2[m]),
                    decreases vals.len() - k,
                {
                    assert(s[j as int].2[k as int] == vals@[k as int]@);
                    if contains_string(&precondition.2, &vals[k]) {
                        assert(some_value_listed(s, precondition.1@, listed));
                        return true;
                    }
                    k = k + 1;
                }
            }
            j = j + 1;
        }
        false
    } else {
        match &precondition.3 {
            Some(f) => {
                let objs = objects_with_declared_type(&problem.objects, &f.0.1);
                let lit = &f.1[0];
                assert(f.1.deep_view()[0] == lit.deep_view());
                if lit.0 {
                    true
                } else {
                    !forall_found(&problem.state, &objs, lit, &f.0.0, relevant_variables)
                }
            },
            None => true,
        }
    }
}


// ------------------------------------------------------------------------
// Enumerating index tuples.

/// Every tuple of `ts`, extended by each index below `n` in turn: all tuples
/// with the last index 0 first, then those with 1, and so on.
pub open spec fn extend_all(ts: Seq<Seq<usize>>, n: int) -> Seq<Seq<usize>>
    decreases n,
{
    if n <= 0 {
        Seq::empty()
    } else {
        extend_all(ts, n - 1) + ts.map_values(|t: Seq<usize>| t.push((n - 1) as usize))
    }
}

/// All tuples of indexes below the given sizes, the first index changing fastest.
pub open spec fn index_tuples(sizes: Seq<usize>) -> Seq<Seq<usize>>
    decreases sizes.len(),
{
    if sizes.len() == 0 {
        seq![Seq::empty()]
    } else {
        extend_all(index_tuples(sizes.drop_last()), sizes.last() as int)
    }
}

/// Whether `t` is a tuple of indexes below the given sizes.
pub open spec fn in_bounds(t: Seq<usize>, sizes: Seq<usize>) -> bool {
    t.len() == sizes.len() && forall|q: int| 0 <= q < t.len() ==> t[q] < sizes[q]
}

proof fn lemma_extend_all(ts: Seq<Seq<usize>>, n: int, i: int)
    requires
        0 <= i < extend_all(ts, n).len(),
    ensures
        n > 0,
        extend_all(ts, n).len() == n * ts.len(),
        exists|v: int, k: int| #![trigger ts[k].push(v as usize)]
            0 <= v < n && 0 <= k < ts.len() && extend_all(ts, n)[i] == ts[k].push(v as usize),
    decreases n,
{
    if n <= 0 {
    } else {
        let prev = extend_all(ts, n - 1);
        lemma_extend_all_len(ts, n - 1);
        if i < prev.len() {
            lemma_extend_all(ts, n - 1, i);
            let (v, k) = choose|v: int, k: int| #![trigger ts[k].push(v as usize)] 0 <= v < n - 1 && 0 <= k < ts.len() && prev[i] == ts[k].push(v as usize);
            assert(extend_all(ts, n)[i] == prev[i]);
            assert(extend_all(ts, n)[i] == ts[k].push(v as usize));
        } else {
            let k = i - prev.len();
            assert(ts.map_values(|t: Seq<usize>| t.push((n - 1) as usize)).len() == ts.len());
            assert(extend_all(ts, n)[i] == ts[k].push((n - 1) as usize));
        }
        lemma_extend_all_len(ts, n);
    }
}

proof fn lemma_extend_all_len(ts: Seq<Seq<usize>>, n: int)
    ensures
        extend_all(ts, n).len() == if n <= 0 { 0 } else { n * ts.len() },
    decreases n,
{
    if n > 0 {
        lemma_extend_all_len(ts, n - 1);
        let m = ts.map_values(|t: Seq<usize>| t.push((n - 1) as usize));
        assert(m.len() == ts.len());
        assert(extend_all(ts, n) == extend_all(ts, n - 1) + m);
        if n == 1 {
            assert(extend_all(ts, n - 1).len() == 0);
            assert(n * ts.len() == ts.len()) by (nonlinear_arith)
                requires
                    n == 1,
            ;
        } else {
            assert((n - 1) * ts.len() + ts.len() == n * ts.len()) by (nonlinear_arith);
        }
    }
}

/// Every enumerated tuple is in bounds.
pub proof fn lemma_index_tuples_bounds(sizes: Seq<usize>)
    ensures
        forall|i: int| 0 <= i < index_tuples(sizes).len() ==> in_bounds(#[trigger] index_tuples(sizes)[i], sizes),
    decreases sizes.len(),
{
    if sizes.len() > 0 {
        let prev = index_tuples(sizes.drop_last());
        lemma_index_tuples_bounds(sizes.drop_last());
        assert forall|i: int| 0 <= i < index_tuples(sizes).len() implies in_bounds(#[trigger] index_tuples(sizes)[i], sizes) by {
            lemma_extend_all(prev, sizes.last() as int, i);
            let (v, k) = choose|v: int, k: int| #![trigger prev[k].push(v as usize)] 0 <= v < sizes.last() && 0 <= k < prev.len() && index_tuples(sizes)[i] == prev[k].push(v as usize);
            assert(in_bounds(prev[k], sizes.drop_last()));
            let t = index_tuples(sizes)[i];
            assert forall|q: int| 0 <= q < t.len() implies t[q] < sizes[q] by {
                if q < prev[k].len() {
                    assert(t[q] == prev[k][q]);
                    assert(sizes.drop_last()[q] == sizes[q]);
                }
            }
        }
    }
}

/// Every tuple in bounds is enumerated.
pub proof fn lemma_index_tuples_complete(sizes: Seq<usize>, t: Seq<usize>)
    requires
        in_bounds(t, sizes),
    ensures
        index_tuples(sizes).contains(t),
    decreases sizes.len(),
{
    if sizes.len() == 0 {
        assert(t =~= Seq::<usize>::empty());
        assert(index_tuples(sizes)[0] == t);
    } else {
        let prev = index_tuples(sizes.drop_last());
        let tp = t.drop_last();
        assert(in_bounds(tp, sizes.drop_last())) by {
            assert forall|q: int| 0 <= q < tp.len() implies tp[q] < sizes.drop_last()[q] by {
                assert(tp[q] == t[q]);
            }
        }
        lemma_index_tuples_complete(sizes.drop_last(), tp);
        let k = choose|k: int| 0 <= k < prev.len() && prev[k] == tp;
        let v = t.last() as int;
        assert(t =~= tp.push(v as usize));
        lemma_extend_all_member(prev, sizes.last() as int, v, k);
    }
}

proof fn lemma_extend_all_member(ts: Seq<Seq<usize>>, n: int, v: int, k: int)
    requires
        0 <= v < n,
        0 <= k < ts.len(),
    ensures
        extend_all(ts, n).contains(ts[k].push(v as usize)),
    decreases n,
{
    let prev = extend_all(ts, n - 1);
    if v < n - 1 {
        lemma_extend_all_member(ts, n - 1, v, k);
        let i = choose|i: int| 0 <= i < prev.len() && prev[i] == ts[k].push(v as usize);
        assert(extend_all(ts, n)[i] == prev[i]);
    } else {
        lemma_extend_all_len(ts, n - 1);
        let i = prev.len() + k;
        assert(extend_all(ts, n)[i] == ts[k].push(v as usize));
    }
}

proof fn lemma_indices_deep(t: Vec<usize>)
    ensures
        t.deep_view() == t@,
{
    assert(t.deep_view() =~= t@);
}

fn copy_indices(t: &Vec<usize>) -> (res: Vec<usize>)
    ensures
        res@ == t@,
{
    let mut res: Vec<usize> = Vec::new();
    let mut i: usize = 0;
    while i < t.len()
        invariant
            i <= t.len(),
            res@ == t@.take(i as int),
        decreases t.len() - i,
    {
        res.push(t[i]);
        i = i + 1;
        assert(res@ =~= t@.take(i as int));
    }
    assert(t@.take(i as int) =~= t@);
    res
}

/// All tuples of indexes below the given sizes, the first index changing fastest.
fn build_tuples(sizes: &Vec<usize>) -> (res: Vec<Vec<usize>>)
    ensures
        res.deep_view() == index_tuples(sizes@),
{
    let mut cur: Vec<Vec<usize>> = Vec::new();
    let e: Vec<usize> = Vec::new();
    proof { lemma_indices_deep(e); }
    cur.push(e);
    assert(cur.deep_view()[0] == cur@[0].deep_view());
    assert(cur.deep_view() =~= seq![Seq::<usize>::empty()]);
    assert(sizes@.take(0) =~= Seq::<usize>::empty());
    let mut p: usize = 0;
    while p < sizes.len()
        invariant
            p <= sizes.len(),
            cur.deep_view() == index_tuples(sizes@.take(p as int)),
        decreases sizes.len() - p,
    {
        assert(sizes@.take(p + 1).drop_last() =~= sizes@.take(p as int));
        let ghost base = cur.deep_view();
        let mut next: Vec<Vec<usize>> = Vec::new();
        let mut v: usize = 0;
        assert(next.deep_view() =~= extend_all(base, 0));
        while v < sizes[p]
            invariant
                base == cur.deep_view(),
                p < sizes.len(),
                v <= sizes[p as int],
                next.deep_view() == extend_all(base, v as int),
            decreases sizes[p as int] - v,
        {
            let ghost before = next.deep_view();
            let mut q: usize = 0;
            assert(before + base.take(0).map_values(|t: Seq<usize>| t.push(v)) =~= before);
            while q < cur.len()
                invariant
                    base == cur.deep_view(),
                    q <= cur.len(),
                    next.deep_view() == before + base.take(q as int).map_values(|t: Seq<usize>| t.push(v)),
                decreases cur.len() - q,
            {
                let mut t = copy_indices(&cur[q]);
                proof { lemma_indices_deep(cur@[q as int]); }
                assert(base[q as int] == cur@[q as int]@);
                t.push(v);
                proof { lemma_indices_deep(t); }
                let ghost nb = next.deep_view();
                next.push(t);
                assert(next.deep_view()[nb.len() as int] == next@[nb.len() as int].deep_view());
                assert(next.deep_view() =~= nb.push(base[q as int].push(v)));
                assert(base.take(q + 1).map_values(|t: Seq<usize>| t.push(v)) =~= base.take(q as int).map_values(|t: Seq<usize>| t.push(v)).push(base[q as int].push(v)));
                q = q + 1;
                assert(next.deep_view() =~= before + base.take(q as int).map_values(|t: Seq<usize>| t.push(v)));
            }
            assert(base.take(q as int) =~= base);
            v = v + 1;
            assert(next.deep_view() =~= extend_all(base, v as int));
        }
        cur = next;
        p = p + 1;
    }
    assert(sizes@.take(p as int) =~= sizes@);
    cur
}


// ------------------------------------------------------------------------
// Trimming the values of relevant variables by a literal.

/// What `setup_relvar_indexes` makes of the arguments of a literal: for every
/// constant the index of a new relevant variable that holds just the constant
/// (marked as a constant), for every variable that has a relevant variable
/// the index of its first one; whether a constant was met; and the relevant
/// variables with the constants appended.
pub open spec fn relvar_setup(args: Seq<Str>, rv: RelVarsModel) -> (Seq<(usize, bool)>, bool, RelVarsModel)
    decreases args.len(),
{
    if args.len() == 0 {
        (Seq::empty(), false, rv)
    } else {
        let prev = relvar_setup(args.drop_last(), rv);
        let a = args.last();
        if !is_var(a) {
            (prev.0.push((prev.2.len() as usize, true)), true, prev.2.push((a, a, seq![a])))
        } else if has_name(prev.2, a) {
            (prev.0.push((first_named(prev.2, a) as usize, false)), prev.1, prev.2)
        } else {
            prev
        }
    }
}

/// The value lists that the indexes point at.
pub open spec fn setup_lists(idx: Seq<(usize, bool)>, nrv: RelVarsModel) -> Seq<Seq<Str>> {
    Seq::new(idx.len(), |p: int| nrv[idx[p].0 as int].2)
}

/// The lengths of value lists.
pub open spec fn sizes_of(lists: Seq<Seq<Str>>) -> Seq<usize> {
    lists.map_values(|l: Seq<Str>| l.len() as usize)
}

/// The values that a tuple of indexes picks from the lists.
pub open spec fn tuple_values(lists: Seq<Seq<Str>>, t: Seq<usize>) -> Seq<Str> {
    Seq::new(t.len(), |q: int| lists[q][t[q] as int])
}

/// Whether a fact of the state on predicate `name` starts with the values
/// that the tuple picks, and the tuple covers all `n_args` arguments.
pub open spec fn tuple_found(state: StateModel, name: Str, n_args: int, lists: Seq<Seq<Str>>, t: Seq<usize>) -> bool {
    &&& lists.len() == n_args
    &&& exists|i: int|
        0 <= i < state.len() && (#[trigger] state[i]).0 == name && state[i].1.len() >= t.len()
            && state[i].1.take(t.len() as int) == tuple_values(lists, t)
}

/// The distinct values at position `p` of the first `n` tuples whose flag is set, in order.
pub open spec fn kept(ts: Seq<Seq<usize>>, flags: Seq<bool>, lists: Seq<Seq<Str>>, p: int, n: int) -> Seq<Str>
    decreases n,
{
    if n <= 0 {
        Seq::empty()
    } else {
        let prev = kept(ts, flags, lists, p, n - 1);
        let v = lists[p][ts[n - 1][p] as int];
        if flags[n - 1] && !prev.contains(v) { prev.push(v) } else { prev }
    }
}

/// The first `n` lists written into the relevant variables at their indexes,
/// in turn; and whether a written variable (not a constant) changed its number of values.
pub open spec fn write_lists(nrv: RelVarsModel, idx: Seq<(usize, bool)>, new: Seq<Seq<Str>>, n: int) -> (RelVarsModel, bool)
    decreases n,
{
    if n <= 0 {
        (nrv, false)
    } else {
        let prev = write_lists(nrv, idx, new, n - 1);
        let j = idx[n - 1].0 as int;
        let r = prev.0;
        (r.update(j, (r[j].0, r[j].1, new[n - 1])), prev.1 || (r[j].2.len() != new[n - 1].len() && !idx[n - 1].1))
    }
}

/// The relevant variables whose names are variables.
pub open spec fn variables_only(rv: RelVarsModel) -> RelVarsModel
    decreases rv.len(),
{
    if rv.len() == 0 {
        Seq::empty()
    } else {
        let r = variables_only(rv.drop_last());
        if is_var(rv.last().0) { r.push(rv.last()) } else { r }
    }
}

/// What trimming by a literal gives: the relevant variables where each
/// argument of the literal keeps the values that occur in a tuple of values
/// for which a fact of the state is found (`positive`) or none is found
/// (`!positive`), each once, in the order in which the tuples are
/// enumerated; whether a variable lost values; and whether some tuple was found.
pub open spec fn literal_trim(rv: RelVarsModel, args: Seq<Str>, name: Str, state: StateModel, positive: bool) -> (RelVarsModel, bool, bool) {
    let su = relvar_setup(args, rv);
    let lists = setup_lists(su.0, su.2);
    let ts = index_tuples(sizes_of(lists));
    let flags = Seq::new(ts.len(), |i: int| tuple_found(state, name, args.len() as int, lists, ts[i]) == positive);
    let new = Seq::new(lists.len(), |p: int| kept(ts, flags, lists, p, ts.len() as int));
    let w = write_lists(su.2, su.0, new, su.0.len() as int);
    (if su.1 { variables_only(w.0) } else { w.0 }, w.1, flags.contains(true))
}

pub proof fn lemma_setup(args: Seq<Str>, rv: RelVarsModel)
    ensures
        relvar_setup(args, rv).2.len() >= rv.len(),
        relvar_setup(args, rv).0.len() <= args.len(),
        forall|j: int| 0 <= j < rv.len() ==> #[trigger] relvar_setup(args, rv).2[j] == rv[j],
        forall|j: int| rv.len() <= j < relvar_setup(args, rv).2.len() ==> !is_var(#[trigger] relvar_setup(args, rv).2[j].0),
        forall|p: int| 0 <= p < relvar_setup(args, rv).0.len() ==> (#[trigger] relvar_setup(args, rv).0[p]).0 < relvar_setup(args, rv).2.len(),
        !relvar_setup(args, rv).1 ==> relvar_setup(args, rv).2.len() == rv.len(),
    decreases args.len(),
{
    if args.len() > 0 {
        lemma_setup(args.drop_last(), rv);
        let prev = relvar_setup(args.drop_last(), rv);
        let a = args.last();
        if !is_var(a) {
        } else if has_name(prev.2, a) {
            let f = first_named(prev.2, a);
            let j = choose|j: int| 0 <= j < prev.2.len() && (#[trigger] prev.2[j]).0 == a;
            assert(0 <= j < prev.2.len() && prev.2[j].0 == a);
            assert(0 <= f < prev.2.len()) by {
                crate::toolbox::relvars::lemma_first_named_exists(prev.2, a);
            }
        }
    }
}

pub(crate) fn setup_relvar_indexes(preconditions: &Vec<String>, relevant_variables: &RelVars) -> (res: (Vec<(usize, bool)>, bool, RelVars))
    ensures
        (res.0@, res.1, res.2.deep_view()) == relvar_setup(preconditions.deep_view(), relevant_variables.deep_view()),
{
    let ghost a = preconditions.deep_view();
    let ghost s = relevant_variables.deep_view();
    let mut idx: Vec<(usize, bool)> = Vec::new();
    let mut constants = false;
    let mut nrv = clone_relvars(relevant_variables);
    let mut i: usize = 0;
    assert(a.take(0) =~= Seq::<Str>::empty());
    assert(idx@ =~= Seq::<(usize, bool)>::empty());
    while i < preconditions.len()
        invariant
            a == preconditions.deep_view(),
            s == relevant_variables.deep_view(),
            i <= preconditions.len(),
            (idx@, constants, nrv.deep_view()) == relvar_setup(a.take(i as int), s),
        decreases preconditions.len() - i,
    {
        assert(a.take(i + 1).drop_last() =~= a.take(i as int));
        assert(a[i as int] == preconditions@[i as int]@);
        let arg = &preconditions[i];
        if !is_variable(arg) {
            let ghost before = nrv.deep_view();
            idx.push((nrv.len(), true));
            let vals = single(arg);
            nrv.push((arg.clone(), arg.clone(), vals));
            assert(nrv.deep_view() =~= before.push((arg@, arg@, seq![arg@])));
            constants = true;
        } else {
            match find_relvar(&nrv, arg) {
                Some(j) => {
                    idx.push((j, false));
                },
                None => {},
            }
        }
        i = i + 1;
    }
    assert(a.take(i as int) =~= a);
    (idx, constants, nrv)
}

/// Remove the relevant variables whose names are constants.
fn remove_constant(relvars: &mut RelVars)
    ensures
        final(relvars).deep_view() == variables_only(old(relvars).deep_view()),
{
    let ghost s = relvars.deep_view();
    let mut kept_vars: RelVars = Vec::new();
    let mut i: usize = 0;
    while i < relvars.len()
        invariant
            s == relvars.deep_view(),
            i <= relvars.len(),
            kept_vars.deep_view() == variables_only(s.take(i as int)),
        decreases relvars.len() - i,
    {
        assert(s.take(i + 1).drop_last() =~= s.take(i as int));
        assert(s[i as int] == relvars@[i as int].deep_view());
        if is_variable(&relvars[i].0) {
            let ghost before = kept_vars.deep_view();
            kept_vars.push((relvars[i].0.clone(), relvars[i].1.clone(), clone_strings(&relvars[i].2)));
            assert(kept_vars.deep_view() =~= before.push(s[i as int]));
        }
        i = i + 1;
    }
    assert(s.take(i as int) =~= s);
    *relvars = kept_vars;
}

fn tuple_found_exec(state: &Vec<(String, Vec<String>)>, name: &String, n_args: usize, lists: &Vec<Vec<String>>, t: &Vec<usize>) -> (res: bool)
    requires
        t@.len() == lists.len(),
        forall|q: int| 0 <= q < t@.len() ==> t@[q] < lists@[q].len(),
    ensures
        res == tuple_found(state.deep_view(), name@, n_args as int, lists.deep_view(), t@),
{
    let ghost st = state.deep_view();
    let ghost ls = lists.deep_view();
    if lists.len() != n_args {
        return false;
    }
    let mut i: usize = 0;
    while i < state.len()
        invariant
            st == state.deep_view(),
            ls == lists.deep_view(),
            lists.len() == n_args,
            t@.len() == lists.len(),
            forall|q: int| 0 <= q < t@.len() ==> t@[q] < lists@[q].len(),
            i <= state.len(),
            forall|k: int| 0 <= k < i && (#[trigger] st[k]).0 == name@ && st[k].1.len() >= t@.len()
                ==> st[k].1.take(t@.len() as int) != tuple_values(ls, t@),
        decreases state.len() - i,
    {
        assert(st[i as int] == state@[i as int].deep_view());
        if state[i].0 == *name && state[i].1.len() >= t.len() {
            let args = &state[i].1;
            let mut q: usize = 0;
            while q < t.len() && args[q] == lists[q][t[q]]
                invariant
                    st == state.deep_view(),
                    ls == lists.deep_view(),
                    args == &state@[i as int].1,
                    args.len() >= t.len(),
                    t@.len() == lists.len(),
                    forall|r: int| 0 <= r < t@.len() ==> t@[r] < lists@[r].len(),
                    q <= t.len(),
                    forall|r: int| 0 <= r < q ==> st[i as int].1[r] == #[trigger] ls[r][t@[r] as int],
                decreases t.len() - q,
            {
                assert(st[i as int].1[q as int] == args@[q as int]@);
                assert(ls[q as int] == lists@[q as int].deep_view());
                assert(ls[q as int][t@[q as int] as int] == lists@[q as int]@[t@[q as int] as int]@);
                q = q + 1;
            }
            if q == t.len() {
                assert(st[i as int].1.take(t@.len() as int) =~= tuple_values(ls, t@));
                return true;
            } else {
                assert(st[i as int].1[q as int] == args@[q as int]@);
                assert(ls[q as int] == lists@[q as int].deep_view());
                assert(ls[q as int][t@[q as int] as int] == lists@[q as int]@[t@[q as int] as int]@);
                assert(st[i as int].1.take(t@.len() as int)[q as int] != tuple_values(ls, t@)[q as int]);
            }
        }
        i = i + 1;
    }
    false
}

fn kept_exec(ts: &Vec<Vec<usize>>, flags: &Vec<bool>, lists: &Vec<Vec<String>>, p: usize, n: usize) -> (res: Vec<String>)
    requires
        flags.len() == ts.len(),
        n <= ts.len(),
        p < lists.len(),
        forall|i: int| 0 <= i < ts.len() ==> p < (#[trigger] ts@[i])@.len() && ts@[i]@[p as int] < lists@[p as int].len(),
    ensures
        res.deep_view() == kept(ts.deep_view(), flags@, lists.deep_view(), p as int, n as int),
        res.deep_view().no_duplicates(),
{
    let ghost tv = ts.deep_view();
    let ghost ls = lists.deep_view();
    let mut res: Vec<String> = Vec::new();
    let mut i: usize = 0;
    while i < n
        invariant
            tv == ts.deep_view(),
            ls == lists.deep_view(),
            flags.len() == ts.len(),
            n <= ts.len(),
            p < lists.len(),
            forall|k: int| 0 <= k < ts.len() ==> p < (#[trigger] ts@[k])@.len() && ts@[k]@[p as int] < lists@[p as int].len(),
            i <= n,
            res.deep_view() == kept(tv, flags@, ls, p as int, i as int),
            res.deep_view().no_duplicates(),
        decreases n - i,
    {
        let t = &ts[i];
        proof { lemma_indices_deep(ts@[i as int]); }
        assert(tv[i as int] == ts@[i as int].deep_view());
        let ghost v = ls[p as int][tv[i as int][p as int] as int];
        assert(ls[p as int] == lists@[p as int].deep_view());
        assert(v == lists@[p as int]@[t@[p as int] as int]@);
        let ghost before = res.deep_view();
        if flags[i] && !contains_string(&res, &lists[p][t[p]]) {
            res.push(lists[p][t[p]].clone());
            assert(res.deep_view() =~= before.push(v));
            proof { crate::text::lemma_push_no_duplicates(before, v); }
        }
        i = i + 1;
    }
    res
}

/// Trims relevant variables by a literal on the state, keeping the values
/// for which a fact is found (`positive`) or for which none is.
fn literal_trim_exec(relevant_variables: &RelVars, args: &Vec<String>, name: &String, state: &Vec<(String, Vec<String>)>, positive: bool) -> (res: (RelVars, bool, bool))
    requires
        forall|i: int| 0 <= i < state.len() && (#[trigger] state.deep_view()[i]).0 == name@ ==> state.deep_view()[i].1.len() >= args.len(),
    ensures
        (res.0.deep_view(), res.1, res.2) == literal_trim(relevant_variables.deep_view(), args.deep_view(), name@, state.deep_view(), positive),
{
    let ghost rv = relevant_variables.deep_view();
    let ghost st = state.deep_view();
    let (idx, constant, mut nrv) = setup_relvar_indexes(args, relevant_variables);
    let ghost su = relvar_setup(args.deep_view(), rv);
    proof { lemma_setup(args.deep_view(), rv); }
    let ghost nrv0 = nrv.deep_view();
    // The value lists of the indexed variables.
    let mut lists: Vec<Vec<String>> = Vec::new();
    let mut sizes: Vec<usize> = Vec::new();
    let mut p: usize = 0;
    while p < idx.len()
        invariant
            su == relvar_setup(args.deep_view(), rv),
            idx@ == su.0,
            nrv.deep_view() == su.2,
            nrv0 == su.2,
            forall|q: int| 0 <= q < su.0.len() ==> (#[trigger] su.0[q]).0 < su.2.len(),
            p <= idx.len(),
            lists.len() == p,
            sizes.len() == p,
            forall|q: int| 0 <= q < p ==> (#[trigger] lists.deep_view()[q]) == su.2[su.0[q].0 as int].2,
            forall|q: int| 0 <= q < p ==> #[trigger] sizes@[q] == lists@[q].len(),
        decreases idx.len() - p,
    {
        let j = idx[p].0;
        assert(su.2[j as int] == nrv@[j as int].deep_view());
        let l = clone_strings(&nrv[j].2);
        let ghost before = lists.deep_view();
        sizes.push(l.len());
        lists.push(l);
        assert(lists.deep_view() =~= before.push(su.2[j as int].2));
        p = p + 1;
    }
    let ghost ls = lists.deep_view();
    assert(ls =~= setup_lists(su.0, su.2));
    assert forall|q: int| 0 <= q < ls.len() implies ls[q].len() == lists@[q].len() by {
        assert(ls[q] == lists@[q].deep_view());
    }
    assert(sizes@ =~= sizes_of(ls));
    let ts = build_tuples(&sizes);
    let ghost tv = ts.deep_view();
    proof { lemma_index_tuples_bounds(sizes@); }
    assert forall|i: int| 0 <= i < ts.len() implies (#[trigger] ts@[i])@.len() == lists.len()
        && forall|q: int| 0 <= q < lists.len() ==> ts@[i]@[q] < lists@[q].len() by {
        assert(tv[i] == ts@[i].deep_view());
        lemma_indices_deep(ts@[i]);
        assert(in_bounds(tv[i], sizes@));
    }
    // Which tuples are kept.
    let mut flags: Vec<bool> = Vec::new();
    let mut i: usize = 0;
    while i < ts.len()
        invariant
            tv == ts.deep_view(),
            ls == lists.deep_view(),
            forall|k: int| 0 <= k < ts.len() ==> (#[trigger] ts@[k])@.len() == lists.len()
                && forall|q: int| 0 <= q < lists.len() ==> ts@[k]@[q] < lists@[q].len(),
            i <= ts.len(),
            flags.len() == i,
            forall|k: int| 0 <= k < i ==> #[trigger] flags@[k] == (tuple_found(st, name@, args.len() as int, ls, tv[k]) == positive),
        decreases ts.len() - i,
    {
        proof { lemma_indices_deep(ts@[i as int]); }
        assert(tv[i as int] == ts@[i as int].deep_view());
        let f = tuple_found_exec(state, name, args.len(), &lists, &ts[i]);
        flags.push(f == positive);
        i = i + 1;
    }
    let ghost fl = Seq::new(tv.len(), |k: int| tuple_found(st, name@, args.len() as int, ls, tv[k]) == positive);
    assert(flags@ =~= fl);
    // The values each position keeps.
    let mut new_lists: Vec<Vec<String>> = Vec::new();
    let mut p: usize = 0;
    while p < lists.len()
        invariant
            tv == ts.deep_view(),
            ls == lists.deep_view(),
            flags@ == fl,
            flags.len() == ts.len(),
            forall|k: int| 0 <= k < ts.len() ==> (#[trigger] ts@[k])@.len() == lists.len()
                && forall|q: int| 0 <= q < lists.len() ==> ts@[k]@[q] < lists@[q].len(),
            p <= lists.len(),
            new_lists.len() == p,
            forall|q: int| 0 <= q < p ==> (#[trigger] new_lists.deep_view()[q]) == kept(tv, fl, ls, q, tv.len() as int),
        decreases lists.len() - p,
    {
        let l = kept_exec(&ts, &flags, &lists, p, ts.len());
        let ghost before = new_lists.deep_view();
        new_lists.push(l);
        assert(new_lists.deep_view() =~= before.push(kept(tv, fl, ls, p as int, tv.len() as int)));
        p = p + 1;
    }
    let ghost nl = Seq::new(ls.len(), |q: int| kept(tv, fl, ls, q, tv.len() as int));
    assert(new_lists.deep_view() =~= nl);
    // Write the kept values back.
    let mut trimmed_something = false;
    let mut p: usize = 0;
    assert(write_lists(su.2, su.0, nl, 0) == (su.2, false));
    while p < idx.len()
        invariant
            su == relvar_setup(args.deep_view(), rv),
            idx@ == su.0,
            idx.len() == lists.len(),
            new_lists.len() == lists.len(),
            new_lists.deep_view() == nl,
            forall|q: int| 0 <= q < su.0.len() ==> (#[trigger] su.0[q]).0 < su.2.len(),
            p <= idx.len(),
            nrv.len() == su.2.len(),
            (nrv.deep_view(), trimmed_something) == write_lists(su.2, su.0, nl, p as int),
        decreases idx.len() - p,
    {
        let j = idx[p].0;
        let ghost prev = nrv.deep_view();
        assert(prev[j as int] == nrv@[j as int].deep_view());
        assert(nl[p as int] == new_lists@[p as int].deep_view());
        if nrv[j].2.len() != new_lists[p].len() && !idx[p].1 {
            trimmed_something = true;
        }
        nrv = set_one(&nrv, j, clone_strings(&new_lists[p]));
        p = p + 1;
    }
    if constant {
        remove_constant(&mut nrv);
    }
    let found = contains_true(&flags);
    (nrv, trimmed_something, found)
}

fn contains_true(flags: &Vec<bool>) -> (res: bool)
    ensures
        res == flags@.contains(true),
{
    let mut i: usize = 0;
    while i < flags.len()
        invariant
            i <= flags.len(),
            forall|k: int| 0 <= k < i ==> !flags@[k],
        decreases flags.len() - i,
    {
        if flags[i] {
            assert(flags@[i as int] == true);
            return true;
        }
        i = i + 1;
    }
    false
}

/// Check that a predicate is present in the state: each argument of the
/// literal keeps the values that occur in a tuple for which the state has a
/// fact; also says whether something was trimmed and whether some tuple was found.
pub fn precon_trim_zero(relevant_variables: &RelVars, precondition: &Precondition, state: &Vec<(String, Vec<String>)>) -> (res: (RelVars, bool, bool))
    requires
        names_distinct(relevant_variables.deep_view()),
        forall|i: int| 0 <= i < state.len() && (#[trigger] state.deep_view()[i]).0 == precondition.1@
            ==> state.deep_view()[i].1.len() >= precondition.2.len(),
    ensures
        (res.0.deep_view(), res.1, res.2) == literal_trim(relevant_variables.deep_view(), precondition.2.deep_view(), precondition.1@, state.deep_view(), true),
{
    literal_trim_exec(relevant_variables, &precondition.2, &precondition.1, state, true)
}

/// Check that a predicate is not present in the state: each argument of the
/// literal keeps the values that occur in a tuple for which the state has no
/// fact; also says whether something was trimmed.
pub fn precon_trim_one(relevant_variables: &RelVars, precondition: &Precondition, state: &Vec<(String, Vec<String>)>) -> (res: (RelVars, bool))
    requires
        names_distinct(relevant_variables.deep_view()),
        forall|i: int| 0 <= i < state.len() && (#[trigger] state.deep_view()[i]).0 == precondition.1@
            ==> state.deep_view()[i].1.len() >= precondition.2.len(),
    ensures
        res.0.deep_view() == literal_trim(relevant_variables.deep_view(), precondition.2.deep_view(), precondition.1@, state.deep_view(), false).0,
        res.1 == literal_trim(relevant_variables.deep_view(), precondition.2.deep_view(), precondition.1@, state.deep_view(), false).1,
{
    let r = literal_trim_exec(relevant_variables, &precondition.2, &precondition.1, state, false);
    (r.0, r.1)
}


// ------------------------------------------------------------------------
// Trimming by equalities and inequalities.

/// Whether every relevant variable is named by a variable.
pub open spec fn all_variables(rv: RelVarsModel) -> bool {
    forall|j: int| 0 <= j < rv.len() ==> is_var(#[trigger] rv[j].0)
}

/// What trimming by an equality of the first two arguments gives: both keep
/// the values of the first that the second holds; constants are removed
/// again; and whether something was trimmed, which with constants counts
/// only when some relevant variable changed its number of values.
pub open spec fn equal_trim(rv: RelVarsModel, args: Seq<Str>) -> (RelVarsModel, bool) {
    let su = relvar_setup(args, rv);
    let nrv = su.2;
    let i0 = su.0[0].0 as int;
    let i1 = su.0[1].0 as int;
    let values = kept_in(nrv[i0].2, nrv[i1].2);
    let trimmed = nrv[i0].2.len() != values.len() || nrv[i1].2.len() != values.len();
    let w1 = nrv.update(i0, (nrv[i0].0, nrv[i0].1, values));
    let w = w1.update(i1, (w1[i1].0, w1[i1].1, values));
    if su.1 {
        let r = variables_only(w);
        (r, trimmed && !(forall|i: int| 0 <= i < rv.len() ==> #[trigger] r[i].2.len() == rv[i].2.len()))
    } else {
        (w, trimmed)
    }
}

/// What trimming by an inequality of the first two arguments gives: when one
/// of them has a single value, the other loses its first occurrence of it;
/// constants are removed again; and whether a value was removed.
pub open spec fn unequal_trim(rv: RelVarsModel, args: Seq<Str>) -> (RelVarsModel, bool) {
    let su = relvar_setup(args, rv);
    let nrv = su.2;
    let i0 = su.0[0].0 as int;
    let i1 = su.0[1].0 as int;
    let r = if nrv[i0].2.len() == 1 {
        let x = nrv[i0].2[0];
        if nrv[i1].2.contains(x) {
            (nrv.update(i1, (nrv[i1].0, nrv[i1].1, nrv[i1].2.remove(first_occurrence(nrv[i1].2, x)))), true)
        } else {
            (nrv, false)
        }
    } else if nrv[i1].2.len() == 1 {
        let x = nrv[i1].2[0];
        if nrv[i0].2.contains(x) {
            (nrv.update(i0, (nrv[i0].0, nrv[i0].1, nrv[i0].2.remove(first_occurrence(nrv[i0].2, x)))), true)
        } else {
            (nrv, false)
        }
    } else {
        (nrv, false)
    };
    (if su.1 { variables_only(r.0) } else { r.0 }, r.1)
}

/// `variables_only` keeps a prefix of variables and drops the constants after it.
pub proof fn lemma_variables_only_prefix(w: RelVarsModel, m: int)
    requires
        0 <= m <= w.len(),
        forall|j: int| 0 <= j < m ==> is_var(#[trigger] w[j].0),
        forall|j: int| m <= j < w.len() ==> !is_var(#[trigger] w[j].0),
    ensures
        variables_only(w) == w.take(m),
    decreases w.len(),
{
    if w.len() > 0 {
        let p = w.drop_last();
        if m == w.len() {
            lemma_variables_only_prefix(p, m - 1);
            assert(w.take(m) =~= p.take(m - 1).push(w.last()));
            assert(p.take(m - 1) =~= p);
        } else {
            assert(!is_var(w[w.len() - 1].0));
            lemma_variables_only_prefix(p, m);
            assert(p.take(m) =~= w.take(m));
        }
    } else {
        assert(w.take(m) =~= w);
    }
}

/// Trims relevant variables based on equality: both lists keep the values of
/// the first that the second holds.
fn trim_lists_for_equal_precon(indexes: (usize, usize), relevant_variables: RelVars) -> (res: (RelVars, bool))
    requires
        indexes.0 < relevant_variables.len(),
        indexes.1 < relevant_variables.len(),
    ensures
        ({
            let rv = relevant_variables.deep_view();
            let i0 = indexes.0 as int;
            let i1 = indexes.1 as int;
            let values = kept_in(rv[i0].2, rv[i1].2);
            let w1 = rv.update(i0, (rv[i0].0, rv[i0].1, values));
            &&& res.0.deep_view() == w1.update(i1, (w1[i1].0, w1[i1].1, values))
            &&& res.1 == (rv[i0].2.len() != values.len() || rv[i1].2.len() != values.len())
        }),
{
    let ghost rv = relevant_variables.deep_view();
    assert(rv[indexes.0 as int] == relevant_variables@[indexes.0 as int].deep_view());
    assert(rv[indexes.1 as int] == relevant_variables@[indexes.1 as int].deep_view());
    let values = filter_by(&relevant_variables[indexes.0].2, &relevant_variables[indexes.1].2, true);
    let trimmed_something = relevant_variables[indexes.0].2.len() != values.len() || relevant_variables[indexes.1].2.len() != values.len();
    let r1 = set_one(&relevant_variables, indexes.0, clone_strings(&values));
    let r2 = set_one(&r1, indexes.1, values);
    (r2, trimmed_something)
}

fn same_lengths(a: &RelVars, b: &RelVars) -> (res: bool)
    requires
        a.len() >= b.len(),
    ensures
        res == forall|i: int| 0 <= i < b.len() ==> #[trigger] a.deep_view()[i].2.len() == b.deep_view()[i].2.len(),
{
    let mut i: usize = 0;
    while i < b.len()
        invariant
            a.len() >= b.len(),
            i <= b.len(),
            forall|k: int| 0 <= k < i ==> #[trigger] a.deep_view()[k].2.len() == b.deep_view()[k].2.len(),
        decreases b.len() - i,
    {
        assert(a.deep_view()[i as int] == a@[i as int].deep_view());
        assert(b.deep_view()[i as int] == b@[i as int].deep_view());
        assert(a@[i as int].2.deep_view().len() == a@[i as int].2.len());
        assert(b@[i as int].2.deep_view().len() == b@[i as int].2.len());
        if a[i].2.len() != b[i].2.len() {
            assert(a.deep_view()[i as int].2.len() != b.deep_view()[i as int].2.len());
            return false;
        }
        i = i + 1;
    }
    true
}

/// A precondition requiring two values to be equal: both arguments keep the
/// values they share.
pub fn precon_trim_two(relevant_variables: &RelVars, precondition: &Precondition) -> (res: (RelVars, bool))
    requires
        all_variables(relevant_variables.deep_view()),
        relvar_setup(precondition.2.deep_view(), relevant_variables.deep_view()).0.len() >= 2,
    ensures
        (res.0.deep_view(), res.1) == equal_trim(relevant_variables.deep_view(), precondition.2.deep_view()),
{
    let ghost rv = relevant_variables.deep_view();
    let ghost su = relvar_setup(precondition.2.deep_view(), rv);
    proof { lemma_setup(precondition.2.deep_view(), rv); }
    let (indexes, constants, new_relvars) = setup_relvar_indexes(&precondition.2, relevant_variables);
    let (mut new_relvars, mut trimmed_something) = trim_lists_for_equal_precon((indexes[0].0, indexes[1].0), new_relvars);
    if constants {
        let ghost w = new_relvars.deep_view();
        proof {
            assert forall|j: int| 0 <= j < rv.len() implies is_var(#[trigger] w[j].0) by {
                assert(su.2[j] == rv[j]);
            }
            assert forall|j: int| rv.len() <= j < w.len() implies !is_var(#[trigger] w[j].0) by {
                assert(!is_var(su.2[j].0));
            }
            lemma_variables_only_prefix(w, rv.len() as int);
        }
        remove_constant(&mut new_relvars);
        assert(new_relvars.deep_view().len() == rv.len());
        if trimmed_something {
            if same_lengths(&new_relvars, relevant_variables) {
                trimmed_something = false;
            }
        }
    }
    (new_relvars, trimmed_something)
}

/// A precondition requiring two values to differ: when one argument has a
/// single value, the other loses it.
pub fn precon_trim_three(relevant_variables: &RelVars, precondition: &Precondition) -> (res: (RelVars, bool))
    requires
        relvar_setup(precondition.2.deep_view(), relevant_variables.deep_view()).0.len() >= 2,
    ensures
        (res.0.deep_view(), res.1) == unequal_trim(relevant_variables.deep_view(), precondition.2.deep_view()),
{
    let ghost rv = relevant_variables.deep_view();
    let ghost su = relvar_setup(precondition.2.deep_view(), rv);
    proof { lemma_setup(precondition.2.deep_view(), rv); }
    let (indexes, constants, mut new_relvars) = setup_relvar_indexes(&precondition.2, relevant_variables);
    let ghost nrv = new_relvars.deep_view();
    let i0 = indexes[0].0;
    let i1 = indexes[1].0;
    assert(nrv[i0 as int] == new_relvars@[i0 as int].deep_view());
    assert(nrv[i1 as int] == new_relvars@[i1 as int].deep_view());
    let mut parameter_contained = false;
    if new_relvars[i0].2.len() == 1 {
        assert(nrv[i0 as int].2[0] == new_relvars@[i0 as int].2@[0]@);
        if contains_string(&new_relvars[i1].2, &new_relvars[i0].2[0]) {
            let l = remove_first_occurrence(&new_relvars[i1].2, &new_relvars[i0].2[0]);
            new_relvars = set_one(&new_relvars, i1, l);
            parameter_contained = true;
        }
    } else if new_relvars[i1].2.len() == 1 {
        assert(nrv[i1 as int].2[0] == new_relvars@[i1 as int].2@[0]@);
        if contains_string(&new_relvars[i0].2, &new_relvars[i1].2[0]) {
            let l = remove_first_occurrence(&new_relvars[i0].2, &new_relvars[i1].2[0]);
            new_relvars = set_one(&new_relvars, i0, l);
            parameter_contained = true;
        }
    }
    if constants {
        remove_constant(&mut new_relvars);
    }
    (new_relvars, parameter_contained)
}


// ------------------------------------------------------------------------
// Trimming by a `forall`.

/// The values an argument of a `forall` literal may take: the objects of the
/// bound type for the bound variable, else the values of its relevant variable.
pub open spec fn forall_lists(args: Seq<Str>, var: Str, objs: Seq<Str>, rv: RelVarsModel) -> Seq<Seq<Str>> {
    Seq::new(args.len(), |i: int| if args[i] == var { objs } else { rv[first_named(rv, args[i])].2 })
}

/// The index of the first set flag from `i` on, or the number of flags.
pub open spec fn first_set_from(flags: Seq<bool>, i: int) -> int
    decreases flags.len() - i,
{
    if i < 0 || i >= flags.len() {
        flags.len() as int
    } else if flags[i] {
        i
    } else {
        first_set_from(flags, i + 1)
    }
}

/// The number of leading arguments, from `i` on, that are not the bound variable.
pub open spec fn leading_from(args: Seq<Str>, var: Str, i: int) -> int
    decreases args.len() - i,
{
    if 0 <= i < args.len() && args[i] != var {
        leading_from(args, var, i + 1)
    } else {
        i
    }
}

/// The writes of a `forall` into the relevant variables named by its first
/// `n` arguments: each gets the values collected for its argument where the
/// `forall` is cleared, and no value where it is not; and whether a written
/// variable's number of values differs from the number collected.
pub open spec fn forall_writes(cur: RelVarsModel, rv: RelVarsModel, args: Seq<Str>, var: Str, acc: Seq<Seq<Str>>, cleared: bool, n: int) -> (RelVarsModel, bool)
    decreases n,
{
    if n <= 0 {
        (cur, false)
    } else {
        let prev = forall_writes(cur, rv, args, var, acc, cleared, n - 1);
        if args[n - 1] == var {
            prev
        } else {
            let j = first_named(rv, args[n - 1]);
            let r = prev.0;
            let written = if cleared { acc[n - 1] } else { Seq::empty() };
            (r.update(j, (r[j].0, r[j].1, written)), prev.1 || r[j].2.len() != acc[n - 1].len())
        }
    }
}

/// What trimming by a `forall` gives. The tuples of values of its literal's
/// arguments (the bound variable ranging over the objects of its type) are
/// taken in turn, the first index changing fastest. The `forall` is cleared
/// exactly when no tuple matches a fact of the state. The values of each
/// argument are collected from the tuples before the first matching one.
/// The relevant variables named by the leading arguments (up to the first
/// occurrence of the bound variable) get the collected values where the
/// `forall` is cleared and no value where it is not. Also says whether the
/// number of values of such a variable differs from the number collected.
pub open spec fn forall_trim(rv: RelVarsModel, p: PreconditionModel, objects: Seq<(Str, Str, Seq<Str>)>, state: StateModel) -> (RelVarsModel, bool, bool) {
    let f = p.3.unwrap();
    if f.1.len() == 0 {
        (rv, false, true)
    } else {
        let lit = f.1[0];
        let var = f.0.0;
        let lists = forall_lists(lit.2, var, objects_declared(objects, f.0.1), rv);
        let ts = index_tuples(sizes_of(lists));
        let hits = Seq::new(ts.len(), |i: int| tuple_found(state, lit.1, lit.2.len() as int, lists, ts[i]));
        let misses = Seq::new(ts.len(), |i: int| !hits[i]);
        let first = first_set_from(hits, 0);
        let acc = Seq::new(lists.len(), |q: int| kept(ts, misses, lists, q, first));
        let cleared = !hits.contains(true);
        let w = forall_writes(rv, rv, lit.2, var, acc, cleared, leading_from(lit.2, var, 0));
        (w.0, w.1, cleared)
    }
}

/// The inputs that `precon_trim_forall` handles: a `forall` with at most one
/// literal, whose arguments are the bound variable or name relevant
/// variables, and whose facts have at least as many arguments.
pub open spec fn forall_trimmable(p: PreconditionModel, rv: RelVarsModel, state: StateModel) -> bool {
    &&& p.3 is Some
    &&& p.3.unwrap().1.len() <= 1
    &&& p.3.unwrap().1.len() == 1 ==> {
        let lit = p.3.unwrap().1[0];
        &&& forall|i: int| 0 <= i < lit.2.len() ==> #[trigger] lit.2[i] == p.3.unwrap().0.0 || has_name(rv, lit.2[i])
        &&& forall|i: int| 0 <= i < state.len() && (#[trigger] state[i]).0 == lit.1 ==> state[i].1.len() >= lit.2.len()
    }
}

/// Trims relevant variables by a `forall` precondition as [`forall_trim`]
/// says; the third result tells whether no tuple of values matched a fact.
pub fn precon_trim_forall(relevant_variables: &RelVars, precondition: &Precondition, problem: &Problem, state: &Vec<(String, Vec<String>)>) -> (res: (RelVars, bool, bool))
    requires
        names_distinct(relevant_variables.deep_view()),
        forall_trimmable(precondition.deep_view(), relevant_variables.deep_view(), state.deep_view()),
    ensures
        (res.0.deep_view(), res.1, res.2) == forall_trim(relevant_variables.deep_view(), precondition.deep_view(), problem.objects.deep_view(), state.deep_view()),
{
    let ghost rv = relevant_variables.deep_view();
    let ghost st = state.deep_view();
    let ghost pv = precondition.deep_view();
    let f = match &precondition.3 {
        Some(f) => f,
        None => {
            return (clone_relvars(relevant_variables), false, true);
        },
    };
    if f.1.len() == 0 {
        return (clone_relvars(relevant_variables), false, true);
    }
    let lit = &f.1[0];
    let var = &f.0.0;
    assert(f.1.deep_view()[0] == lit.deep_view());
    assert(pv.3 == Some(f.deep_view()));
    assert(pv.3.unwrap().1[0] == lit.deep_view());
    let ghost la = lit.2.deep_view();
    assert(pv.3.unwrap().1.len() == 1);
    assert(pv.3.unwrap().0.0 == var@);
    assert(pv.3.unwrap().1[0].2 == la);
    assert(forall|i: int| 0 <= i < la.len() ==> #[trigger] la[i] == var@ || has_name(rv, la[i]));
    let objs = objects_with_declared_type(&problem.objects, &f.0.1);
    // The value lists of the literal's arguments.
    let mut lists: Vec<Vec<String>> = Vec::new();
    let mut sizes: Vec<usize> = Vec::new();
    let mut q: usize = 0;
    let ghost target = forall_lists(la, var@, objs.deep_view(), rv);
    while q < lit.2.len()
        invariant
            la == lit.2.deep_view(),
            rv == relevant_variables.deep_view(),
            names_distinct(rv),
            target == forall_lists(la, var@, objs.deep_view(), rv),
            forall|i: int| 0 <= i < la.len() ==> #[trigger] la[i] == var@ || has_name(rv, la[i]),
            q <= lit.2.len(),
            lists.len() == q,
            sizes.len() == q,
            forall|k: int| 0 <= k < q ==> (#[trigger] lists.deep_view()[k]) == target[k],
            forall|k: int| 0 <= k < q ==> #[trigger] sizes@[k] == lists@[k].len(),
        decreases lit.2.len() - q,
    {
        assert(la[q as int] == lit.2@[q as int]@);
        let ghost before = lists.deep_view();
        let l = if lit.2[q] == *var {
            clone_strings(&objs)
        } else {
            match find_relvar(relevant_variables, &lit.2[q]) {
                Some(j) => {
                    assert(rv[j as int] == relevant_variables@[j as int].deep_view());
                    clone_strings(&relevant_variables[j].2)
                },
                None => {
                    proof { assert(false); }
                    Vec::new()
                },
            }
        };
        sizes.push(l.len());
        lists.push(l);
        assert(lists.deep_view() =~= before.push(target[q as int]));
        q = q + 1;
    }
    let ghost ls = lists.deep_view();
    assert(ls =~= target);
    assert forall|k: int| 0 <= k < ls.len() implies ls[k].len() == lists@[k].len() by {
        assert(ls[k] == lists@[k].deep_view());
    }
    assert(sizes@ =~= sizes_of(ls));
    let ts = build_tuples(&sizes);
    let ghost tv = ts.deep_view();
    proof { lemma_index_tuples_bounds(sizes@); }
    assert forall|i: int| 0 <= i < ts.len() implies (#[trigger] ts@[i])@.len() == lists.len()
        && forall|k: int| 0 <= k < lists.len() ==> ts@[i]@[k] < lists@[k].len() by {
        assert(tv[i] == ts@[i].deep_view());
        lemma_indices_deep(ts@[i]);
        assert(in_bounds(tv[i], sizes@));
    }
    // Which tuples match a fact.
    let mut hits: Vec<bool> = Vec::new();
    let mut all: Vec<bool> = Vec::new();
    let mut i: usize = 0;
    while i < ts.len()
        invariant
            tv == ts.deep_view(),
            ls == lists.deep_view(),
            forall|k: int| 0 <= k < ts.len() ==> (#[trigger] ts@[k])@.len() == lists.len()
                && forall|q: int| 0 <= q < lists.len() ==> ts@[k]@[q] < lists@[q].len(),
            i <= ts.len(),
            hits.len() == i,
            all.len() == i,
            forall|k: int| 0 <= k < i ==> #[trigger] hits@[k] == tuple_found(st, lit.1@, lit.2.len() as int, ls, tv[k]),
            forall|k: int| 0 <= k < i ==> #[trigger] all@[k],
        decreases ts.len() - i,
    {
        proof { lemma_indices_deep(ts@[i as int]); }
        assert(tv[i as int] == ts@[i as int].deep_view());
        let h = tuple_found_exec(state, &lit.1, lit.2.len(), &lists, &ts[i]);
        hits.push(h);
        all.push(true);
        i = i + 1;
    }
    let ghost hs = Seq::new(tv.len(), |k: int| tuple_found(st, lit.1@, lit.2.len() as int, ls, tv[k]));
    assert(hits@ =~= hs);
    assert(all@ =~= Seq::new(tv.len(), |k: int| true));
    let any_hit = contains_true(&hits);
    // The first matching tuple.
    let mut first: usize = 0;
    while first < hits.len() && !hits[first]
        invariant
            first <= hits.len(),
            first_set_from(hits@, first as int) == first_set_from(hits@, 0),
        decreases hits.len() - first,
    {
        first = first + 1;
    }
    let mut misses: Vec<bool> = Vec::new();
    let mut i: usize = 0;
    while i < hits.len()
        invariant
            i <= hits.len(),
            misses.len() == i,
            forall|k: int| 0 <= k < i ==> #[trigger] misses@[k] == !hits@[k],
        decreases hits.len() - i,
    {
        misses.push(!hits[i]);
        i = i + 1;
    }
    let ghost ms = Seq::new(tv.len(), |k: int| !hs[k]);
    assert(misses@ =~= ms);
    // The values of each argument collected before the first matching tuple.
    let mut acc: Vec<Vec<String>> = Vec::new();
    let mut q: usize = 0;
    while q < lists.len()
        invariant
            tv == ts.deep_view(),
            ls == lists.deep_view(),
            misses.len() == ts.len(),
            first <= ts.len(),
            forall|k: int| 0 <= k < ts.len() ==> (#[trigger] ts@[k])@.len() == lists.len()
                && forall|r: int| 0 <= r < lists.len() ==> ts@[k]@[r] < lists@[r].len(),
            q <= lists.len(),
            acc.len() == q,
            forall|k: int| 0 <= k < q ==> (#[trigger] acc.deep_view()[k]) == kept(tv, misses@, ls, k, first as int),
        decreases lists.len() - q,
    {
        let l = kept_exec(&ts, &misses, &lists, q, first);
        let ghost before = acc.deep_view();
        acc.push(l);
        assert(acc.deep_view() =~= before.push(kept(tv, misses@, ls, q as int, first as int)));
        q = q + 1;
    }
    let ghost ac = Seq::new(ls.len(), |k: int| kept(tv, ms, ls, k, first as int));
    assert(acc.deep_view() =~= ac);
    let cleared_precondition = !any_hit;
    // The leading arguments that are not the bound variable.
    let mut lead: usize = 0;
    while lead < lit.2.len() && lit.2[lead] != *var
        invariant
            la == lit.2.deep_view(),
            lead <= lit.2.len(),
            leading_from(la, var@, lead as int) == leading_from(la, var@, 0),
        decreases lit.2.len() - lead,
    {
        assert(la[lead as int] == lit.2@[lead as int]@);
        lead = lead + 1;
    }
    proof {
        if lead < lit.2.len() {
            assert(la[lead as int] == lit.2@[lead as int]@);
        }
    }
    // Write them into the relevant variables.
    let mut new_rel_var = clone_relvars(relevant_variables);
    let mut trimmed_something = false;
    let mut counter: usize = 0;
    while counter < lead
        invariant
            la == lit.2.deep_view(),
            rv == relevant_variables.deep_view(),
            names_distinct(rv),
            forall|i: int| 0 <= i < la.len() ==> #[trigger] la[i] == var@ || has_name(rv, la[i]),
            lead <= lit.2.len(),
            counter <= lead,
            acc.len() == lit.2.len(),
            acc.deep_view() == ac,
            new_rel_var.len() == rv.len(),
            (new_rel_var.deep_view(), trimmed_something) == forall_writes(rv, rv, la, var@, ac, cleared_precondition, counter as int),
        decreases lead - counter,
    {
        assert(la[counter as int] == lit.2@[counter as int]@);
        if lit.2[counter] != *var {
            let j = match find_relvar(relevant_variables, &lit.2[counter]) {
                Some(j) => j,
                None => {
                    proof { assert(false); }
                    0
                },
            };
            let ghost prev = new_rel_var.deep_view();
            assert(prev[j as int] == new_rel_var@[j as int].deep_view());
            assert(ac[counter as int] == acc@[counter as int].deep_view());
            if new_rel_var[j].2.len() != acc[counter].len() {
                trimmed_something = true;
            }
            let written = if cleared_precondition { clone_strings(&acc[counter]) } else { Vec::new() };
            assert(written.deep_view() =~= (if cleared_precondition { ac[counter as int] } else { Seq::<Str>::empty() }));
            new_rel_var = set_one(&new_rel_var, j, written);
        }
        counter = counter + 1;
    }
    (new_rel_var, trimmed_something, cleared_precondition)
}


// ------------------------------------------------------------------------
// Trimming by a list of preconditions until nothing changes.

/// Whether two lists of relevant variables have the same names and types in the same order.
pub open spec fn same_names(a: RelVarsModel, b: RelVarsModel) -> bool {
    &&& a.len() == b.len()
    &&& forall|j: int| 0 <= j < a.len() ==> (#[trigger] a[j]).0 == b[j].0 && a[j].1 == b[j].1
}

/// The inputs on which `precon_trimmer` can trim by a precondition: a known
/// kind; a literal whose facts have at least as many arguments; an
/// (in)equality with two arguments that are constants or name relevant
/// variables; a `forall` that `precon_trim_forall` handles.
pub open spec fn trimmable(p: PreconditionModel, rv: RelVarsModel, state: StateModel) -> bool {
    &&& 0 <= p.0 <= 4
    &&& (p.0 == 0 || p.0 == 1) ==> forall|i: int|
        0 <= i < state.len() && (#[trigger] state[i]).0 == p.1 ==> state[i].1.len() >= p.2.len()
    &&& (p.0 == 2 || p.0 == 3) ==> relvar_setup(p.2, rv).0.len() >= 2
    &&& p.0 == 4 ==> forall_trimmable(p, rv, state)
}

/// Whether a fact of the state is on predicate `name`.
pub open spec fn predicate_in_state(state: StateModel, name: Str) -> bool {
    exists|i: int| 0 <= i < state.len() && (#[trigger] state[i]).0 == name
}

/// One precondition's turn in a pass of `precon_trimmer`: the relevant
/// variables, whether the preconditions are cleared so far, whether something
/// was trimmed, and whether the pass stops here. With no relevant variables
/// at all, a literal whose predicate has no fact stops the pass as not
/// cleared, and a negated literal whose predicate has a fact is not cleared.
/// A literal and a `forall` set the cleared flag to their own result.
pub open spec fn trim_step(orig: RelVarsModel, p: PreconditionModel, objects: Seq<(Str, Str, Seq<Str>)>, state: StateModel, nrv: RelVarsModel, cleared: bool) -> (RelVarsModel, bool, bool, bool) {
    let named = predicate_in_state(state, p.1);
    if orig.len() == 0 && p.0 == 0 && !named {
        (nrv, false, false, true)
    } else {
        let c1 = if orig.len() == 0 && p.0 == 1 && named { false } else { cleared };
        if p.0 == 0 {
            let r = literal_trim(nrv, p.2, p.1, state, true);
            (r.0, r.2, r.1, false)
        } else if p.0 == 1 {
            let r = literal_trim(nrv, p.2, p.1, state, false);
            (r.0, c1, r.1, false)
        } else if p.0 == 2 {
            let r = equal_trim(nrv, p.2);
            (r.0, c1, r.1, false)
        } else if p.0 == 3 {
            let r = unequal_trim(nrv, p.2);
            (r.0, c1, r.1, false)
        } else {
            let r = forall_trim(nrv, p, objects, state);
            (r.0, r.2, r.1, false)
        }
    }
}

/// A pass over the first `n` preconditions: the relevant variables, the
/// cleared flag, whether something was trimmed, and whether the pass stopped.
pub open spec fn trim_pass(orig: RelVarsModel, pres: Seq<PreconditionModel>, objects: Seq<(Str, Str, Seq<Str>)>, state: StateModel, nrv: RelVarsModel, cleared: bool, n: int) -> (RelVarsModel, bool, bool, bool)
    decreases n,
{
    if n <= 0 {
        (nrv, cleared, false, false)
    } else {
        let prev = trim_pass(orig, pres, objects, state, nrv, cleared, n - 1);
        if prev.3 {
            prev
        } else {
            let st = trim_step(orig, pres[n - 1], objects, state, prev.0, prev.1);
            if st.3 { (prev.0, st.1, prev.2, true) } else { (st.0, st.1, prev.2 || st.2, false) }
        }
    }
}

/// Passes over all preconditions, repeated while one trims something, at most `fuel` times more.
pub open spec fn trim_rounds(orig: RelVarsModel, pres: Seq<PreconditionModel>, objects: Seq<(Str, Str, Seq<Str>)>, state: StateModel, nrv: RelVarsModel, cleared: bool, fuel: nat) -> (RelVarsModel, bool)
    decreases fuel,
{
    let p = trim_pass(orig, pres, objects, state, nrv, cleared, pres.len() as int);
    if p.2 && fuel > 0 {
        trim_rounds(orig, pres, objects, state, p.0, p.1, (fuel - 1) as nat)
    } else {
        (p.0, p.1)
    }
}

/// The number of values of all relevant variables.
pub open spec fn value_total(rv: RelVarsModel) -> nat
    decreases rv.len(),
{
    if rv.len() == 0 { 0 } else { value_total(rv.drop_last()) + rv.last().2.len() }
}

/// The number of passes that may follow the first: one for every value, up to the machine's bound.
pub open spec fn trim_fuel(rv: RelVarsModel) -> nat {
    if value_total(rv) <= usize::MAX { value_total(rv) } else { usize::MAX as nat }
}

/// What `precon_trimmer` answers: the relevant variables after the passes,
/// and whether the preconditions were cleared with no variable left without values.
pub open spec fn trimmer_result(rv: RelVarsModel, pres: Seq<PreconditionModel>, objects: Seq<(Str, Str, Seq<Str>)>, state: StateModel) -> (RelVarsModel, bool) {
    let r = trim_rounds(rv, pres, objects, state, rv, true, trim_fuel(rv));
    (r.0, r.1 && forall|j: int| 0 <= j < r.0.len() ==> (#[trigger] r.0[j]).2.len() > 0)
}

pub proof fn lemma_same_names_props(a: RelVarsModel, b: RelVarsModel)
    requires
        same_names(a, b),
    ensures
        names_distinct(a) ==> names_distinct(b),
        all_variables(a) ==> all_variables(b),
        forall|n: Str| has_name(a, n) <==> has_name(b, n),
        forall|n: Str| has_name(a, n) ==> first_named(a, n) == first_named(b, n),
{
    assert forall|n: Str| has_name(a, n) <==> has_name(b, n) by {
        if has_name(a, n) {
            let j = choose|j: int| 0 <= j < a.len() && (#[trigger] a[j]).0 == n;
            assert(b[j].0 == n);
        }
        if has_name(b, n) {
            let j = choose|j: int| 0 <= j < b.len() && (#[trigger] b[j]).0 == n;
            assert(a[j].0 == n);
        }
    }
    assert forall|n: Str| has_name(a, n) implies first_named(a, n) == first_named(b, n) by {
        crate::toolbox::relvars::lemma_first_named_exists(a, n);
        let f = first_named(a, n);
        assert forall|k: int| 0 <= k < f implies (#[trigger] b[k]).0 != n by {
            assert(a[k].0 != n);
        }
        lemma_first_named(b, n, f);
    }
    if names_distinct(a) {
        assert forall|i: int, j: int| 0 <= i < j < b.len() implies (#[trigger] b[i]).0 != (#[trigger] b[j]).0 by {
            assert(a[i].0 != a[j].0);
        }
    }
    if all_variables(a) {
        assert forall|j: int| 0 <= j < b.len() implies is_var(#[trigger] b[j].0) by {
            assert(is_var(a[j].0));
        }
    }
}

proof fn lemma_setup_same_names(args: Seq<Str>, a: RelVarsModel, b: RelVarsModel)
    requires
        same_names(a, b),
    ensures
        relvar_setup(args, a).0 == relvar_setup(args, b).0,
        relvar_setup(args, a).1 == relvar_setup(args, b).1,
        same_names(relvar_setup(args, a).2, relvar_setup(args, b).2),
    decreases args.len(),
{
    if args.len() > 0 {
        lemma_setup_same_names(args.drop_last(), a, b);
        let pa = relvar_setup(args.drop_last(), a);
        let pb = relvar_setup(args.drop_last(), b);
        lemma_same_names_props(pa.2, pb.2);
        let x = args.last();
        if !is_var(x) {
            assert(same_names(pa.2.push((x, x, seq![x])), pb.2.push((x, x, seq![x])))) by {
                let ra = pa.2.push((x, x, seq![x]));
                let rb = pb.2.push((x, x, seq![x]));
                assert forall|j: int| 0 <= j < ra.len() implies (#[trigger] ra[j]).0 == rb[j].0 && ra[j].1 == rb[j].1 by {
                    if j < pa.2.len() { assert(ra[j] == pa.2[j] && rb[j] == pb.2[j]); }
                }
            }
        }
    }
}

pub proof fn lemma_write_lists_names(nrv: RelVarsModel, idx: Seq<(usize, bool)>, new: Seq<Seq<Str>>, n: int)
    requires
        n <= idx.len(),
        forall|p: int| 0 <= p < idx.len() ==> (#[trigger] idx[p]).0 < nrv.len(),
    ensures
        same_names(write_lists(nrv, idx, new, n).0, nrv),
    decreases n,
{
    if n > 0 {
        lemma_write_lists_names(nrv, idx, new, n - 1);
        let r = write_lists(nrv, idx, new, n - 1).0;
        let j = idx[n - 1].0 as int;
        let w = r.update(j, (r[j].0, r[j].1, new[n - 1]));
        assert forall|k: int| 0 <= k < w.len() implies (#[trigger] w[k]).0 == nrv[k].0 && w[k].1 == nrv[k].1 by {
            assert(r[k].0 == nrv[k].0);
        }
    }
}

/// What a trim keeps of the names: dropping the appended constants again gives the names of `rv`.
proof fn lemma_finish_names(args: Seq<Str>, rv: RelVarsModel, w: RelVarsModel)
    requires
        all_variables(rv),
        same_names(w, relvar_setup(args, rv).2),
    ensures
        same_names(if relvar_setup(args, rv).1 { variables_only(w) } else { w }, rv),
{
    let su = relvar_setup(args, rv);
    lemma_setup(args, rv);
    if su.1 {
        assert forall|j: int| 0 <= j < rv.len() implies is_var(#[trigger] w[j].0) by {
            assert(su.2[j] == rv[j]);
            assert(is_var(rv[j].0));
        }
        assert forall|j: int| rv.len() <= j < w.len() implies !is_var(#[trigger] w[j].0) by {
            assert(!is_var(su.2[j].0));
        }
        lemma_variables_only_prefix(w, rv.len() as int);
        assert forall|j: int| 0 <= j < rv.len() implies (#[trigger] w.take(rv.len() as int)[j]).0 == rv[j].0 && w.take(rv.len() as int)[j].1 == rv[j].1 by {
            assert(su.2[j] == rv[j]);
        }
    } else {
        assert forall|j: int| 0 <= j < w.len() implies (#[trigger] w[j]).0 == rv[j].0 && w[j].1 == rv[j].1 by {
            assert(su.2[j] == rv[j]);
        }
    }
}

pub proof fn lemma_literal_trim_names(rv: RelVarsModel, args: Seq<Str>, name: Str, state: StateModel, positive: bool)
    requires
        all_variables(rv),
    ensures
        same_names(literal_trim(rv, args, name, state, positive).0, rv),
{
    let su = relvar_setup(args, rv);
    lemma_setup(args, rv);
    let lists = setup_lists(su.0, su.2);
    let ts = index_tuples(sizes_of(lists));
    let flags = Seq::new(ts.len(), |i: int| tuple_found(state, name, args.len() as int, lists, ts[i]) == positive);
    let new = Seq::new(lists.len(), |p: int| kept(ts, flags, lists, p, ts.len() as int));
    lemma_write_lists_names(su.2, su.0, new, su.0.len() as int);
    lemma_finish_names(args, rv, write_lists(su.2, su.0, new, su.0.len() as int).0);
}

proof fn lemma_equal_trim_names(rv: RelVarsModel, args: Seq<Str>)
    requires
        all_variables(rv),
        relvar_setup(args, rv).0.len() >= 2,
    ensures
        same_names(equal_trim(rv, args).0, rv),
{
    let su = relvar_setup(args, rv);
    lemma_setup(args, rv);
    let nrv = su.2;
    let i0 = su.0[0].0 as int;
    let i1 = su.0[1].0 as int;
    let values = kept_in(nrv[i0].2, nrv[i1].2);
    let w1 = nrv.update(i0, (nrv[i0].0, nrv[i0].1, values));
    let w = w1.update(i1, (w1[i1].0, w1[i1].1, values));
    assert(same_names(w, nrv)) by {
        assert forall|k: int| 0 <= k < w.len() implies (#[trigger] w[k]).0 == nrv[k].0 && w[k].1 == nrv[k].1 by {
            assert(w1[k].0 == nrv[k].0);
        }
    }
    lemma_finish_names(args, rv, w);
}

proof fn lemma_unequal_trim_names(rv: RelVarsModel, args: Seq<Str>)
    requires
        all_variables(rv),
        relvar_setup(args, rv).0.len() >= 2,
    ensures
        same_names(unequal_trim(rv, args).0, rv),
{
    let su = relvar_setup(args, rv);
    lemma_setup(args, rv);
    let nrv = su.2;
    let i0 = su.0[0].0 as int;
    let i1 = su.0[1].0 as int;
    assert forall|i: int, l: Seq<Str>| 0 <= i < nrv.len() implies same_names(#[trigger] nrv.update(i, (nrv[i].0, nrv[i].1, l)), nrv) by {
        let w = nrv.update(i, (nrv[i].0, nrv[i].1, l));
        assert forall|k: int| 0 <= k < w.len() implies (#[trigger] w[k]).0 == nrv[k].0 && w[k].1 == nrv[k].1 by {}
    }
    let r = if nrv[i0].2.len() == 1 {
        let x = nrv[i0].2[0];
        if nrv[i1].2.contains(x) {
            (nrv.update(i1, (nrv[i1].0, nrv[i1].1, nrv[i1].2.remove(first_occurrence(nrv[i1].2, x)))), true)
        } else {
            (nrv, false)
        }
    } else if nrv[i1].2.len() == 1 {
        let x = nrv[i1].2[0];
        if nrv[i0].2.contains(x) {
            (nrv.update(i0, (nrv[i0].0, nrv[i0].1, nrv[i0].2.remove(first_occurrence(nrv[i0].2, x)))), true)
        } else {
            (nrv, false)
        }
    } else {
        (nrv, false)
    };
    assert(same_names(nrv, nrv));
    assert(same_names(r.0, nrv));
    lemma_finish_names(args, rv, r.0);
}

proof fn lemma_forall_writes_names(cur: RelVarsModel, rv: RelVarsModel, args: Seq<Str>, var: Str, acc: Seq<Seq<Str>>, cleared: bool, n: int)
    requires
        same_names(cur, rv),
        n <= args.len(),
        forall|k: int| 0 <= k < n && args[k] != var ==> has_name(rv, #[trigger] args[k]),
    ensures
        same_names(forall_writes(cur, rv, args, var, acc, cleared, n).0, rv),
    decreases n,
{
    if n > 0 {
        lemma_forall_writes_names(cur, rv, args, var, acc, cleared, n - 1);
        if args[n - 1] != var {
            let r = forall_writes(cur, rv, args, var, acc, cleared, n - 1).0;
            assert(has_name(rv, args[n - 1]));
            crate::toolbox::relvars::lemma_first_named_exists(rv, args[n - 1]);
            let j = first_named(rv, args[n - 1]);
            let written = if cleared { acc[n - 1] } else { Seq::empty() };
            let w = r.update(j, (r[j].0, r[j].1, written));
            assert forall|k: int| 0 <= k < w.len() implies (#[trigger] w[k]).0 == rv[k].0 && w[k].1 == rv[k].1 by {
                assert(r[k].0 == rv[k].0);
            }
        }
    }
}

proof fn lemma_leading_bound(args: Seq<Str>, var: Str, i: int)
    requires
        0 <= i <= args.len(),
    ensures
        i <= leading_from(args, var, i) <= args.len(),
    decreases args.len() - i,
{
    if i < args.len() && args[i] != var {
        lemma_leading_bound(args, var, i + 1);
    }
}

proof fn lemma_forall_trim_names(rv: RelVarsModel, p: PreconditionModel, objects: Seq<(Str, Str, Seq<Str>)>, state: StateModel)
    requires
        forall_trimmable(p, rv, state),
    ensures
        same_names(forall_trim(rv, p, objects, state).0, rv),
{
    let f = p.3.unwrap();
    assert(same_names(rv, rv));
    if f.1.len() > 0 {
        let lit = f.1[0];
        let var = f.0.0;
        let lists = forall_lists(lit.2, var, objects_declared(objects, f.0.1), rv);
        let ts = index_tuples(sizes_of(lists));
        let hits = Seq::new(ts.len(), |i: int| tuple_found(state, lit.1, lit.2.len() as int, lists, ts[i]));
        let misses = Seq::new(ts.len(), |i: int| !hits[i]);
        let acc = Seq::new(lists.len(), |q: int| kept(ts, misses, lists, q, first_set_from(hits, 0)));
        assert forall|k: int| 0 <= k < lit.2.len() && lit.2[k] != var implies has_name(rv, #[trigger] lit.2[k]) by {}
        lemma_leading_bound(lit.2, var, 0);
        lemma_forall_writes_names(rv, rv, lit.2, var, acc, !hits.contains(true), leading_from(lit.2, var, 0));
    }
}

pub proof fn lemma_trimmable_same_names(p: PreconditionModel, a: RelVarsModel, b: RelVarsModel, state: StateModel)
    requires
        same_names(a, b),
        trimmable(p, a, state),
    ensures
        trimmable(p, b, state),
{
    lemma_setup_same_names(p.2, a, b);
    lemma_same_names_props(a, b);
}

proof fn lemma_step_names(orig: RelVarsModel, p: PreconditionModel, objects: Seq<(Str, Str, Seq<Str>)>, state: StateModel, nrv: RelVarsModel, cleared: bool)
    requires
        all_variables(nrv),
        trimmable(p, nrv, state),
    ensures
        same_names(trim_step(orig, p, objects, state, nrv, cleared).0, nrv),
{
    assert(same_names(nrv, nrv));
    if p.0 == 0 || p.0 == 1 {
        lemma_literal_trim_names(nrv, p.2, p.1, state, p.0 == 0);
    } else if p.0 == 2 {
        lemma_equal_trim_names(nrv, p.2);
    } else if p.0 == 3 {
        lemma_unequal_trim_names(nrv, p.2);
    } else {
        lemma_forall_trim_names(nrv, p, objects, state);
    }
}

pub proof fn lemma_same_names_trans(a: RelVarsModel, b: RelVarsModel, c: RelVarsModel)
    requires
        same_names(a, b),
        same_names(b, c),
    ensures
        same_names(a, c),
{
    assert forall|j: int| 0 <= j < a.len() implies (#[trigger] a[j]).0 == c[j].0 && a[j].1 == c[j].1 by {
        assert(b[j].0 == c[j].0);
    }
}

/// One precondition's turn in a pass of `precon_trimmer`.
fn trim_step_exec(orig: &RelVars, precondition: &Precondition, problem: &Problem, state: &Vec<(String, Vec<String>)>, nrv: &RelVars, cleared: bool) -> (res: (RelVars, bool, bool, bool))
    requires
        names_distinct(nrv.deep_view()),
        all_variables(nrv.deep_view()),
        trimmable(precondition.deep_view(), nrv.deep_view(), state.deep_view()),
    ensures
        (res.0.deep_view(), res.1, res.2, res.3) == trim_step(orig.deep_view(), precondition.deep_view(), problem.objects.deep_view(),
            state.deep_view(), nrv.deep_view(), cleared),
        same_names(res.0.deep_view(), nrv.deep_view()),
{
    let ghost st = state.deep_view();
    proof {
        lemma_step_names(orig.deep_view(), precondition.deep_view(), problem.objects.deep_view(), st, nrv.deep_view(), cleared);
    }
    let mut cleared_precons = cleared;
    if orig.len() == 0 {
        let mut i: usize = 0;
        let mut found_it = false;
        while i < state.len()
            invariant
                st == state.deep_view(),
                i <= state.len(),
                found_it == exists|q: int| 0 <= q < i && (#[trigger] st[q]).0 == precondition.1@,
            decreases state.len() - i,
        {
            assert(st[i as int] == state@[i as int].deep_view());
            if state[i].0 == precondition.1 {
                found_it = true;
            }
            i = i + 1;
        }
        if precondition.0 == 0 && !found_it {
            return (clone_relvars(nrv), false, false, true);
        }
        if precondition.0 == 1 && found_it {
            cleared_precons = false;
        }
    }
    if precondition.0 == 0 {
        let r = precon_trim_zero(nrv, precondition, state);
        (r.0, r.2, r.1, false)
    } else if precondition.0 == 1 {
        let r = precon_trim_one(nrv, precondition, state);
        (r.0, cleared_precons, r.1, false)
    } else if precondition.0 == 2 {
        let r = precon_trim_two(nrv, precondition);
        (r.0, cleared_precons, r.1, false)
    } else if precondition.0 == 3 {
        let r = precon_trim_three(nrv, precondition);
        (r.0, cleared_precons, r.1, false)
    } else {
        let r = precon_trim_forall(nrv, precondition, problem, state);
        (r.0, r.2, r.1, false)
    }
}

/// Runs one pass of `precon_trimmer` over the preconditions.
#[verifier::rlimit(50)]
#[verifier::spinoff_prover]
fn trim_pass_exec(orig: &RelVars, precondition_list: &Vec<Precondition>, problem: &Problem, state: &Vec<(String, Vec<String>)>, start: RelVars, cleared: bool) -> (res: (RelVars, bool, bool))
    requires
        names_distinct(orig.deep_view()),
        all_variables(orig.deep_view()),
        same_names(start.deep_view(), orig.deep_view()),
        forall|k: int| 0 <= k < precondition_list.len() ==> trimmable(#[trigger] precondition_list.deep_view()[k], orig.deep_view(), state.deep_view()),
    ensures
        ({
            let p = trim_pass(orig.deep_view(), precondition_list.deep_view(), problem.objects.deep_view(), state.deep_view(),
                start.deep_view(), cleared, precondition_list.len() as int);
            (res.0.deep_view(), res.1, res.2) == (p.0, p.1, p.2)
        }),
        same_names(res.0.deep_view(), orig.deep_view()),
{
    let ghost o = orig.deep_view();
    let ghost pl = precondition_list.deep_view();
    let ghost objs = problem.objects.deep_view();
    let ghost st = state.deep_view();
    let ghost s0 = start.deep_view();
    let mut new_relvars = start;
    let mut cleared_precons = cleared;
    let mut check_precon_again = false;
    let mut stopped = false;
    let mut k: usize = 0;
    while k < precondition_list.len()
        invariant
            o == orig.deep_view(),
            pl == precondition_list.deep_view(),
            objs == problem.objects.deep_view(),
            st == state.deep_view(),
            names_distinct(o),
            all_variables(o),
            forall|q: int| 0 <= q < precondition_list.len() ==> trimmable(#[trigger] pl[q], o, st),
            k <= precondition_list.len(),
            same_names(new_relvars.deep_view(), o),
            trim_pass(o, pl, objs, st, s0, cleared, k as int) == (new_relvars.deep_view(), cleared_precons, check_precon_again, stopped),
        decreases precondition_list.len() - k,
    {
        if !stopped {
            let precondition = &precondition_list[k];
            assert(pl[k as int] == precondition.deep_view());
            let ghost cur = new_relvars.deep_view();
            proof {
                assert(same_names(o, cur)) by {
                    assert forall|j: int| 0 <= j < o.len() implies (#[trigger] o[j]).0 == cur[j].0 && o[j].1 == cur[j].1 by {}
                }
                lemma_same_names_props(o, cur);
                lemma_trimmable_same_names(pl[k as int], o, cur, st);
            }
            let r = trim_step_exec(orig, precondition, problem, state, &new_relvars, cleared_precons);
            if r.3 {
                cleared_precons = r.1;
                stopped = true;
            } else {
                proof { lemma_same_names_trans(r.0.deep_view(), cur, o); }
                new_relvars = r.0;
                cleared_precons = r.1;
                if r.2 {
                    check_precon_again = true;
                }
            }
        }
        k = k + 1;
    }
    (new_relvars, cleared_precons, check_precon_again)
}

fn count_values(rv: &RelVars) -> (res: usize)
    ensures
        res == trim_fuel(rv.deep_view()),
{
    let ghost s = rv.deep_view();
    let mut total: usize = 0;
    let mut saturated = false;
    let mut i: usize = 0;
    while i < rv.len()
        invariant
            s == rv.deep_view(),
            i <= rv.len(),
            !saturated ==> total == value_total(s.take(i as int)),
            saturated ==> value_total(s.take(i as int)) > usize::MAX && total == usize::MAX,
        decreases rv.len() - i,
    {
        assert(s.take(i + 1).drop_last() =~= s.take(i as int));
        assert(s[i as int] == rv@[i as int].deep_view());
        let n = rv[i].2.len();
        if !saturated {
            if total > usize::MAX - n {
                saturated = true;
                total = usize::MAX;
            } else {
                total = total + n;
            }
        }
        i = i + 1;
    }
    assert(s.take(i as int) =~= s);
    total
}

/// Remove values from relevant variables that cannot clear a precondition:
/// trims by every precondition in turn, and repeats while a pass trimmed
/// something (at most once more for every value the variables hold); also
/// says whether the preconditions were cleared with no variable left empty.
pub fn precon_trimmer(relevant_variables: RelVars, precondition_list: &Vec<Precondition>, problem: &Problem, state: &Vec<(String, Vec<String>)>) -> (res: (RelVars, bool))
    requires
        names_distinct(relevant_variables.deep_view()),
        all_variables(relevant_variables.deep_view()),
        forall|k: int| 0 <= k < precondition_list.len() ==> trimmable(#[trigger] precondition_list.deep_view()[k], relevant_variables.deep_view(), state.deep_view()),
    ensures
        (res.0.deep_view(), res.1) == trimmer_result(relevant_variables.deep_view(), precondition_list.deep_view(), problem.objects.deep_view(), state.deep_view()),
        same_names(res.0.deep_view(), relevant_variables.deep_view()),
{
    let ghost o = relevant_variables.deep_view();
    let ghost pl = precondition_list.deep_view();
    let ghost objs = problem.objects.deep_view();
    let ghost st = state.deep_view();
    let ghost total = trim_fuel(o);
    let mut fuel = count_values(&relevant_variables);
    assert(same_names(o, o)) by {
        assert forall|j: int| 0 <= j < o.len() implies (#[trigger] o[j]).0 == o[j].0 && o[j].1 == o[j].1 by {}
    }
    let first = trim_pass_exec(&relevant_variables, precondition_list, problem, state, clone_relvars(&relevant_variables), true);
    let mut new_relvars = first.0;
    let mut cleared_precons = first.1;
    let mut check_precon_again = first.2;
    while check_precon_again && fuel > 0
        invariant
            o == relevant_variables.deep_view(),
            pl == precondition_list.deep_view(),
            objs == problem.objects.deep_view(),
            st == state.deep_view(),
            names_distinct(o),
            all_variables(o),
            forall|k: int| 0 <= k < precondition_list.len() ==> trimmable(#[trigger] pl[k], o, st),
            same_names(new_relvars.deep_view(), o),
            trim_rounds(o, pl, objs, st, o, true, total) == (if check_precon_again && fuel > 0 {
                trim_rounds(o, pl, objs, st, new_relvars.deep_view(), cleared_precons, (fuel - 1) as nat)
            } else {
                (new_relvars.deep_view(), cleared_precons)
            }),
        decreases fuel,
    {
        fuel = fuel - 1;
        let r = trim_pass_exec(&relevant_variables, precondition_list, problem, state, new_relvars, cleared_precons);
        new_relvars = r.0;
        cleared_precons = r.1;
        check_precon_again = r.2;
    }
    let ghost fin = new_relvars.deep_view();
    let ghost cl0 = cleared_precons;
    assert(trim_rounds(o, pl, objs, st, o, true, total) == (fin, cl0));
    let mut i: usize = 0;
    while i < new_relvars.len()
        invariant
            fin == new_relvars.deep_view(),
            i <= new_relvars.len(),
            cleared_precons == (cl0 && forall|j: int| 0 <= j < i ==> (#[trigger] fin[j]).2.len() > 0),
        decreases new_relvars.len() - i,
    {
        assert(fin[i as int] == new_relvars@[i as int].deep_view());
        if new_relvars[i].2.len() == 0 {
            cleared_precons = false;
        }
        i = i + 1;
    }
    (new_relvars, cleared_precons)
}


// ------------------------------------------------------------------------
// Enumerating the permutations of values that clear all preconditions.

/// The product of the lengths of the lists.
pub open spec fn len_product(lists: Seq<Seq<usize>>) -> nat
    decreases lists.len(),
{
    if lists.len() == 0 { 1 } else { len_product(lists.drop_last()) * lists.last().len() }
}

/// Counts permutations: the product of the lengths of the lists.
pub fn perm_count(size_ref: &Vec<Vec<usize>>) -> (res: usize)
    requires
        forall|n: int| 0 <= n <= size_ref.len() ==> #[trigger] len_product(size_ref.deep_view().take(n)) <= usize::MAX,
    ensures
        res == len_product(size_ref.deep_view()),
{
    let ghost s = size_ref.deep_view();
    let mut count: usize = 1;
    let mut i: usize = 0;
    while i < size_ref.len()
        invariant
            s == size_ref.deep_view(),
            forall|n: int| 0 <= n <= size_ref.len() ==> #[trigger] len_product(s.take(n)) <= usize::MAX,
            i <= size_ref.len(),
            count == len_product(s.take(i as int)),
        decreases size_ref.len() - i,
    {
        assert(s.take(i + 1).drop_last() =~= s.take(i as int));
        assert(s[i as int] == size_ref@[i as int].deep_view());
        assert(size_ref@[i as int].deep_view().len() == size_ref@[i as int].len());
        assert(len_product(s.take(i + 1)) <= usize::MAX);
        count = count * size_ref[i].len();
        i = i + 1;
    }
    assert(s.take(i as int) =~= s);
    count
}

/// The relevant variables narrowed to the values a permutation picks.
pub open spec fn chosen(rv: RelVarsModel, perm: Seq<usize>) -> RelVarsModel {
    Seq::new(rv.len(), |i: int| (rv[i].0, rv[i].1, seq![rv[i].2[perm[i] as int]]))
}

/// Whether every precondition holds.
pub open spec fn all_hold(pres: Seq<PreconditionModel>, rv: RelVarsModel, problem: ProblemModel) -> bool {
    forall|k: int| 0 <= k < pres.len() ==> precondition_holds(#[trigger] pres[k], rv, problem)
}

proof fn lemma_arg_values_len(args: Seq<Str>, a: RelVarsModel, b: RelVarsModel)
    requires
        same_names(a, b),
    ensures
        arg_values(args, a).len() == arg_values(args, b).len(),
    decreases args.len(),
{
    lemma_same_names_props(a, b);
    if args.len() > 0 {
        lemma_arg_values_len(args.drop_last(), a, b);
    }
}

proof fn lemma_checkable_same_names(p: PreconditionModel, a: RelVarsModel, b: RelVarsModel, state: StateModel)
    requires
        same_names(a, b),
        precondition_checkable(p, a, state),
    ensures
        precondition_checkable(p, b, state),
{
    lemma_arg_values_len(p.2, a, b);
}

/// Loop over the preconditions and determine whether all of them are cleared
/// by the values that the permutation picks.
fn precon_cleared(permutation: &Vec<usize>, relevant_variables: &RelVars, precondition_list: &Vec<Precondition>, problem: &Problem) -> (res: bool)
    requires
        permutation.len() >= relevant_variables.len(),
        forall|i: int| 0 <= i < relevant_variables.len() ==> permutation@[i] < (#[trigger] relevant_variables@[i]).2.len(),
        names_distinct(relevant_variables.deep_view()),
        forall|k: int| 0 <= k < precondition_list.len() ==> precondition_checkable(#[trigger] precondition_list.deep_view()[k], relevant_variables.deep_view(), problem.state.deep_view()),
    ensures
        res == all_hold(precondition_list.deep_view(), chosen(relevant_variables.deep_view(), permutation@), problem@),
{
    let ghost s = relevant_variables.deep_view();
    let ghost pl = precondition_list.deep_view();
    let ghost c = chosen(s, permutation@);
    let mut new_value_list: RelVars = Vec::new();
    let mut i: usize = 0;
    while i < relevant_variables.len()
        invariant
            s == relevant_variables.deep_view(),
            c == chosen(s, permutation@),
            permutation.len() >= relevant_variables.len(),
            forall|k: int| 0 <= k < relevant_variables.len() ==> permutation@[k] < (#[trigger] relevant_variables@[k]).2.len(),
            i <= relevant_variables.len(),
            new_value_list.deep_view() == c.take(i as int),
        decreases relevant_variables.len() - i,
    {
        let val = &relevant_variables[i];
        assert(s[i as int] == val.deep_view());
        assert(s[i as int].2[permutation@[i as int] as int] == val.2@[permutation@[i as int] as int]@);
        let one = single(&val.2[permutation[i]]);
        let ghost before = new_value_list.deep_view();
        new_value_list.push((val.0.clone(), val.1.clone(), one));
        assert(new_value_list.deep_view() =~= before.push(c[i as int]));
        assert(c.take(i + 1) =~= c.take(i as int).push(c[i as int]));
        i = i + 1;
    }
    assert(c.take(i as int) =~= c);
    proof {
        assert(same_names(s, c)) by {
            assert forall|j: int| 0 <= j < s.len() implies (#[trigger] s[j]).0 == c[j].0 && s[j].1 == c[j].1 by {}
        }
        lemma_same_names_props(s, c);
        assert forall|k: int| 0 <= k < precondition_list.len() implies precondition_checkable(#[trigger] pl[k], c, problem.state.deep_view()) by {
            lemma_checkable_same_names(pl[k], s, c, problem.state.deep_view());
        }
    }
    let mut clear = true;
    let mut k: usize = 0;
    while k < precondition_list.len()
        invariant
            pl == precondition_list.deep_view(),
            new_value_list.deep_view() == c,
            names_distinct(c),
            forall|q: int| 0 <= q < precondition_list.len() ==> precondition_checkable(#[trigger] pl[q], c, problem.state.deep_view()),
            k <= precondition_list.len(),
            clear == forall|q: int| 0 <= q < k ==> precondition_holds(#[trigger] pl[q], c, problem@),
        decreases precondition_list.len() - k,
    {
        assert(pl[k as int] == precondition_list@[k as int].deep_view());
        if !check_precondition(&precondition_list[k], &new_value_list, problem) {
            clear = false;
        }
        k = k + 1;
    }
    clear
}

/// The first arguments of the facts on predicate `name`, in order.
pub open spec fn first_args(state: StateModel, name: Str) -> Seq<Str>
    decreases state.len(),
{
    if state.len() == 0 {
        Seq::empty()
    } else {
        let r = first_args(state.drop_last(), name);
        if state.last().0 == name { r.push(state.last().1[0]) } else { r }
    }
}

/// The index of the first relevant variable named `name` that may take `v`,
/// or the number of relevant variables when there is none.
pub open spec fn holding_index(m: RelVarsModel, name: Str, v: Str) -> int
    decreases m.len(),
{
    if m.len() == 0 {
        0
    } else {
        let f = holding_index(m.drop_last(), name, v);
        if f < m.len() - 1 {
            f
        } else if m.last().0 == name && m.last().2.contains(v) {
            m.len() - 1
        } else {
            m.len() as int
        }
    }
}

/// The positions removed from a list, highest first: each position below
/// `n` as often as its value is the first argument of a fact.
pub open spec fn removal_order(l: Seq<Str>, firsts: Seq<Str>, n: int) -> Seq<int>
    decreases n,
{
    if n <= 0 {
        Seq::empty()
    } else {
        Seq::new(count_of(firsts, l[n - 1]), |k: int| n - 1) + removal_order(l, firsts, n - 1)
    }
}

/// The list after removing the given positions in turn; `None` where a
/// position is past the end of what is left.
pub open spec fn removed_at(cur: Seq<Str>, d: Seq<int>) -> Option<Seq<Str>>
    decreases d.len(),
{
    if d.len() == 0 {
        Some(cur)
    } else if 0 <= d[0] < cur.len() {
        removed_at(cur.remove(d[0]), d.drop_first())
    } else {
        None
    }
}

/// Whether some fact on predicate `name` has no argument.
pub open spec fn bare_fact(state: StateModel, name: Str) -> bool {
    exists|i: int| 0 <= i < state.len() && (#[trigger] state[i]).0 == name && state[i].1.len() == 0
}

/// One precondition's cleanup of the relevant variables `m` before the
/// permutations are enumerated; `None` where the cleanup would read a
/// missing item (an argument of a fact, a position past the end of a list)
/// or, for an inequality, has nothing to remove. A literal with one argument
/// naming a relevant variable reads the first argument of each fact of its
/// predicate against each value of that variable; where it is negated, the
/// positions of the values so found are removed, highest first, each as
/// often as it was found. An equality sets the values of the first variable
/// named like it that may take its first value to its values. An inequality
/// removes that value from that variable. Everything else leaves `m` as it is.
pub open spec fn cleanup_step(rv: RelVarsModel, p: PreconditionModel, state: StateModel, m: RelVarsModel) -> Option<RelVarsModel> {
    if p.0 == 0 || p.0 == 1 {
        if p.2.len() == 1 && has_name(rv, p.2[0]) {
            let i = first_named(rv, p.2[0]);
            let l = m[i].2;
            if l.len() > 0 && bare_fact(state, p.1) {
                None
            } else if p.0 == 1 {
                match removed_at(l, removal_order(l, first_args(state, p.1), l.len() as int)) {
                    Some(r) => Some(m.update(i, (m[i].0, m[i].1, r))),
                    None => None,
                }
            } else {
                Some(m)
            }
        } else {
            Some(m)
        }
    } else if p.0 == 2 || p.0 == 3 {
        if !has_name(m, p.1) {
            if p.0 == 2 { Some(m) } else { None }
        } else {
            let j = holding_index(m, p.1, p.2[0]);
            if j == m.len() {
                if p.0 == 2 { Some(m) } else { None }
            } else if p.0 == 2 {
                Some(m.update(j, (m[j].0, m[j].1, p.2)))
            } else {
                Some(m.update(j, (m[j].0, m[j].1, m[j].2.remove(first_occurrence(m[j].2, p.2[0])))))
            }
        }
    } else {
        Some(m)
    }
}

/// The cleanup by the first `n` preconditions in turn.
pub open spec fn cleanup_fold(rv: RelVarsModel, pres: Seq<PreconditionModel>, state: StateModel, n: int) -> Option<RelVarsModel>
    decreases n,
{
    if n <= 0 {
        Some(rv)
    } else {
        match cleanup_fold(rv, pres, state, n - 1) {
            Some(m) => cleanup_step(rv, pres[n - 1], state, m),
            None => None,
        }
    }
}

/// The inputs on which the cleanup of an (in)equality reads no missing
/// argument: one named like a relevant variable has a value.
pub open spec fn cleanable(p: PreconditionModel, rv: RelVarsModel, state: StateModel) -> bool {
    (p.0 == 2 || p.0 == 3) && has_name(rv, p.1) ==> p.2.len() >= 1
}

fn first_args_exec(state: &Vec<(String, Vec<String>)>, name: &String) -> (res: Vec<String>)
    requires
        forall|i: int| 0 <= i < state.len() && (#[trigger] state.deep_view()[i]).0 == name@ ==> state.deep_view()[i].1.len() >= 1,
    ensures
        res.deep_view() == first_args(state.deep_view(), name@),
{
    let ghost st = state.deep_view();
    let mut res: Vec<String> = Vec::new();
    let mut i: usize = 0;
    while i < state.len()
        invariant
            st == state.deep_view(),
            forall|k: int| 0 <= k < state.len() && (#[trigger] st[k]).0 == name@ ==> st[k].1.len() >= 1,
            i <= state.len(),
            res.deep_view() == first_args(st.take(i as int), name@),
        decreases state.len() - i,
    {
        assert(st.take(i + 1).drop_last() =~= st.take(i as int));
        assert(st[i as int] == state@[i as int].deep_view());
        let ghost before = res.deep_view();
        if state[i].0 == *name {
            assert(st[i as int].1[0] == state@[i as int].1@[0]@);
            res.push(state[i].1[0].clone());
            assert(res.deep_view() =~= before.push(st[i as int].1[0]));
        }
        i = i + 1;
    }
    assert(st.take(i as int) =~= st);
    res
}

proof fn lemma_holding_index(m: RelVarsModel, name: Str, v: Str)
    ensures
        0 <= holding_index(m, name, v) <= m.len(),
        holding_index(m, name, v) < m.len() ==> m[holding_index(m, name, v)].0 == name && m[holding_index(m, name, v)].2.contains(v),
        forall|k: int| 0 <= k < holding_index(m, name, v) ==> !((#[trigger] m[k]).0 == name && m[k].2.contains(v)),
    decreases m.len(),
{
    if m.len() > 0 {
        lemma_holding_index(m.drop_last(), name, v);
        let f = holding_index(m.drop_last(), name, v);
        assert forall|k: int| 0 <= k < holding_index(m, name, v) implies !((#[trigger] m[k]).0 == name && m[k].2.contains(v)) by {
            if k < f { assert(m.drop_last()[k] == m[k]); }
        }
        if f < m.len() - 1 { assert(m.drop_last()[f] == m[f]); }
    }
}

proof fn lemma_removed_at_first(cur: Seq<Str>, x: int, rest: Seq<int>)
    ensures
        removed_at(cur, seq![x] + rest) == if 0 <= x < cur.len() { removed_at(cur.remove(x), rest) } else { None },
{
    assert((seq![x] + rest).drop_first() =~= rest);
}

/// The list with the positions of `removal_order` removed in turn.
fn remove_positions(l: &Vec<String>, firsts: &Vec<String>) -> (res: Vec<String>)
    requires
        removed_at(l.deep_view(), removal_order(l.deep_view(), firsts.deep_view(), l.len() as int)) is Some,
    ensures
        res.deep_view() == removed_at(l.deep_view(), removal_order(l.deep_view(), firsts.deep_view(), l.len() as int)).unwrap(),
{
    let ghost ld = l.deep_view();
    let ghost fd = firsts.deep_view();
    let ghost target = removed_at(ld, removal_order(ld, fd, l.len() as int));
    let mut cur = clone_strings(l);
    let mut n = l.len();
    while n > 0
        invariant
            ld == l.deep_view(),
            fd == firsts.deep_view(),
            n <= l.len(),
            target is Some,
            removed_at(cur.deep_view(), removal_order(ld, fd, n as int)) == target,
        decreases n,
    {
        assert(ld[n - 1] == l@[n - 1]@);
        let c = count_in(firsts, &l[n - 1]);
        let mut k: usize = 0;
        assert(removal_order(ld, fd, n as int) =~= Seq::new((c - k) as nat, |j: int| n - 1) + removal_order(ld, fd, n - 1));
        while k < c
            invariant
                ld == l.deep_view(),
                fd == firsts.deep_view(),
                0 < n <= l.len(),
                k <= c,
                target is Some,
                removed_at(cur.deep_view(), Seq::new((c - k) as nat, |j: int| n - 1) + removal_order(ld, fd, n - 1)) == target,
            decreases c - k,
        {
            let ghost rest = Seq::new((c - k - 1) as nat, |j: int| n - 1) + removal_order(ld, fd, n - 1);
            assert(Seq::new((c - k) as nat, |j: int| n - 1) + removal_order(ld, fd, n - 1) =~= seq![n - 1] + rest);
            proof { lemma_removed_at_first(cur.deep_view(), n - 1, rest); }
            let ghost before = cur.deep_view();
            let ghost before_v = cur@;
            cur.remove(n - 1);
            assert(cur.deep_view() =~= before.remove(n - 1)) by {
                assert forall|j: int| 0 <= j < cur.len() implies #[trigger] cur.deep_view()[j] == before.remove(n - 1)[j] by {
                    if j < n - 1 {
                        assert(cur@[j] == before_v[j] && before[j] == before_v[j]@);
                    } else {
                        assert(cur@[j] == before_v[j + 1] && before[j + 1] == before_v[j + 1]@);
                    }
                }
            }
            k = k + 1;
        }
        assert(Seq::new((c - k) as nat, |j: int| n - 1) + removal_order(ld, fd, n - 1) =~= removal_order(ld, fd, n - 1));
        n = n - 1;
    }
    assert(removal_order(ld, fd, 0) =~= Seq::<int>::empty());
    cur
}

fn cleanup_literal(relevant_variables: &RelVars, precondition: &Precondition, state: &Vec<(String, Vec<String>)>, mutable_relvar: RelVars) -> (res: RelVars)
    requires
        precondition.0 == 0 || precondition.0 == 1,
        same_names(mutable_relvar.deep_view(), relevant_variables.deep_view()),
        cleanup_step(relevant_variables.deep_view(), precondition.deep_view(), state.deep_view(), mutable_relvar.deep_view()) is Some,
    ensures
        res.deep_view() == cleanup_step(relevant_variables.deep_view(), precondition.deep_view(), state.deep_view(), mutable_relvar.deep_view()).unwrap(),
{
    let ghost rv = relevant_variables.deep_view();
    let ghost m = mutable_relvar.deep_view();
    let ghost pv = precondition.deep_view();
    let ghost st = state.deep_view();
    if precondition.2.len() == 1 {
        assert(pv.2[0] == precondition.2@[0]@);
        match find_relvar(relevant_variables, &precondition.2[0]) {
            Some(i) => {
                assert(m[i as int] == mutable_relvar@[i as int].deep_view());
                if mutable_relvar[i].2.len() == 0 || precondition.0 == 0 {
                    proof {
                        if precondition.0 == 1 {
                            assert(removal_order(m[i as int].2, first_args(st, pv.1), 0) =~= Seq::<int>::empty());
                            assert(m.update(i as int, (m[i as int].0, m[i as int].1, m[i as int].2)) =~= m);
                        }
                    }
                    return mutable_relvar;
                }
                assert(!bare_fact(st, pv.1));
                assert forall|k: int| 0 <= k < state.len() && (#[trigger] state.deep_view()[k]).0 == precondition.1@ implies state.deep_view()[k].1.len() >= 1 by {
                    if state.deep_view()[k].1.len() == 0 {
                        assert(bare_fact(st, pv.1));
                    }
                }
                let firsts = first_args_exec(state, &precondition.1);
                let r = remove_positions(&mutable_relvar[i].2, &firsts);
                return set_one(&mutable_relvar, i, r);
            },
            None => {},
        }
    }
    mutable_relvar
}

fn find_holder(m: &RelVars, name: &String, v: &String) -> (res: usize)
    ensures
        res == holding_index(m.deep_view(), name@, v@),
{
    let ghost md = m.deep_view();
    proof { lemma_holding_index(md, name@, v@); }
    let mut j: usize = 0;
    while j < m.len() && !(m[j].0 == *name && contains_string(&m[j].2, v))
        invariant
            md == m.deep_view(),
            j <= m.len(),
            forall|k: int| 0 <= k < j ==> !((#[trigger] md[k]).0 == name@ && md[k].2.contains(v@)),
        decreases m.len() - j,
    {
        assert(md[j as int] == m@[j as int].deep_view());
        j = j + 1;
    }
    if j < m.len() {
        assert(md[j as int] == m@[j as int].deep_view());
    }
    let ghost h = holding_index(md, name@, v@);
    assert(j == h) by {
        if j < h {
            assert(!((md[j as int]).0 == name@ && md[j as int].2.contains(v@)));
        }
        if h < j {
            assert(!((md[h]).0 == name@ && md[h].2.contains(v@)));
        }
    }
    j
}

fn cleanup_equality(relevant_variables: &RelVars, precondition: &Precondition, mutable_relvar: RelVars, Ghost(state): Ghost<StateModel>) -> (res: RelVars)
    requires
        precondition.0 == 2 || precondition.0 == 3,
        has_name(mutable_relvar.deep_view(), precondition.1@) ==> precondition.2.len() >= 1,
        cleanup_step(relevant_variables.deep_view(), precondition.deep_view(), state, mutable_relvar.deep_view()) is Some,
    ensures
        res.deep_view() == cleanup_step(relevant_variables.deep_view(), precondition.deep_view(), state, mutable_relvar.deep_view()).unwrap(),
{
    let ghost m = mutable_relvar.deep_view();
    let ghost pv = precondition.deep_view();
    match find_relvar(&mutable_relvar, &precondition.1) {
        None => mutable_relvar,
        Some(_) => {
            assert(pv.2[0] == precondition.2@[0]@);
            let v = &precondition.2[0];
            let j = find_holder(&mutable_relvar, &precondition.1, v);
            proof { lemma_holding_index(m, pv.1, pv.2[0]); }
            if j == mutable_relvar.len() {
                mutable_relvar
            } else if precondition.0 == 2 {
                set_one(&mutable_relvar, j, clone_strings(&precondition.2))
            } else {
                assert(m[j as int] == mutable_relvar@[j as int].deep_view());
                let l = remove_first_occurrence(&mutable_relvar[j].2, v);
                set_one(&mutable_relvar, j, l)
            }
        },
    }
}

/// One precondition's cleanup, as `cleanup_step` says.
fn cleanup_step_exec(relevant_variables: &RelVars, precondition: &Precondition, state: &Vec<(String, Vec<String>)>, mutable_relvar: RelVars) -> (res: RelVars)
    requires
        same_names(mutable_relvar.deep_view(), relevant_variables.deep_view()),
        cleanable(precondition.deep_view(), relevant_variables.deep_view(), state.deep_view()),
        cleanup_step(relevant_variables.deep_view(), precondition.deep_view(), state.deep_view(), mutable_relvar.deep_view()) is Some,
    ensures
        res.deep_view() == cleanup_step(relevant_variables.deep_view(), precondition.deep_view(), state.deep_view(), mutable_relvar.deep_view()).unwrap(),
{
    if precondition.0 == 0 || precondition.0 == 1 {
        cleanup_literal(relevant_variables, precondition, state, mutable_relvar)
    } else if precondition.0 == 2 || precondition.0 == 3 {
        proof { lemma_same_names_props(relevant_variables.deep_view(), mutable_relvar.deep_view()); }
        assert(same_names(relevant_variables.deep_view(), mutable_relvar.deep_view())) by {
            let rv = relevant_variables.deep_view();
            let m = mutable_relvar.deep_view();
            assert forall|j: int| 0 <= j < rv.len() implies (#[trigger] rv[j]).0 == m[j].0 && rv[j].1 == m[j].1 by {}
        }
        proof { lemma_same_names_props(relevant_variables.deep_view(), mutable_relvar.deep_view()); }
        cleanup_equality(relevant_variables, precondition, mutable_relvar, Ghost(state.deep_view()))
    } else {
        mutable_relvar
    }
}

/// Before the permutations are enumerated, remove the values that cannot
/// clear the preconditions, one precondition at a time.
pub fn pre_permutation_cleanup(precondition_list: &Vec<Precondition>, relevant_variables: &RelVars, state: &Vec<(String, Vec<String>)>) -> (res: RelVars)
    requires
        forall|k: int| 0 <= k < precondition_list.len() ==> cleanable(#[trigger] precondition_list.deep_view()[k], relevant_variables.deep_view(), state.deep_view()),
        cleanup_fold(relevant_variables.deep_view(), precondition_list.deep_view(), state.deep_view(), precondition_list.len() as int) is Some,
    ensures
        res.deep_view() == cleanup_fold(relevant_variables.deep_view(), precondition_list.deep_view(), state.deep_view(), precondition_list.len() as int).unwrap(),
        same_names(res.deep_view(), relevant_variables.deep_view()),
{
    let ghost rv = relevant_variables.deep_view();
    let ghost pl = precondition_list.deep_view();
    let ghost st = state.deep_view();
    let mut mutable_relvar = clone_relvars(relevant_variables);
    assert(same_names(rv, rv)) by {
        assert forall|j: int| 0 <= j < rv.len() implies (#[trigger] rv[j]).0 == rv[j].0 && rv[j].1 == rv[j].1 by {}
    }
    let mut k: usize = 0;
    while k < precondition_list.len()
        invariant
            rv == relevant_variables.deep_view(),
            pl == precondition_list.deep_view(),
            st == state.deep_view(),
            forall|q: int| 0 <= q < precondition_list.len() ==> cleanable(#[trigger] pl[q], rv, st),
            cleanup_fold(rv, pl, st, pl.len() as int) is Some,
            k <= precondition_list.len(),
            cleanup_fold(rv, pl, st, k as int) == Some(mutable_relvar.deep_view()),
            same_names(mutable_relvar.deep_view(), rv),
        decreases precondition_list.len() - k,
    {
        assert(pl[k as int] == precondition_list@[k as int].deep_view());
        proof { lemma_cleanup_some(rv, pl, st, k as int + 1, pl.len() as int); }
        let ghost m = mutable_relvar.deep_view();
        mutable_relvar = cleanup_step_exec(relevant_variables, &precondition_list[k], state, mutable_relvar);
        proof { lemma_cleanup_step_names(rv, pl[k as int], st, m); lemma_same_names_trans(mutable_relvar.deep_view(), m, rv); }
        k = k + 1;
    }
    mutable_relvar
}

proof fn lemma_cleanup_some(rv: RelVarsModel, pres: Seq<PreconditionModel>, state: StateModel, n: int, m: int)
    requires
        0 <= n <= m,
        cleanup_fold(rv, pres, state, m) is Some,
    ensures
        cleanup_fold(rv, pres, state, n) is Some,
    decreases m - n,
{
    if n < m {
        lemma_cleanup_some(rv, pres, state, n + 1, m);
    }
}

proof fn lemma_cleanup_step_names(rv: RelVarsModel, p: PreconditionModel, state: StateModel, m: RelVarsModel)
    requires
        same_names(m, rv),
        cleanup_step(rv, p, state, m) is Some,
    ensures
        same_names(cleanup_step(rv, p, state, m).unwrap(), m),
{
    let r = cleanup_step(rv, p, state, m).unwrap();
    assert forall|i: int, l: Seq<Str>| 0 <= i < m.len() implies same_names(#[trigger] m.update(i, (m[i].0, m[i].1, l)), m) by {
        let w = m.update(i, (m[i].0, m[i].1, l));
        assert forall|k: int| 0 <= k < w.len() implies (#[trigger] w[k]).0 == m[k].0 && w[k].1 == m[k].1 by {}
    }
    assert(same_names(m, m)) by {
        assert forall|k: int| 0 <= k < m.len() implies (#[trigger] m[k]).0 == m[k].0 && m[k].1 == m[k].1 by {}
    }
    if p.0 == 0 || p.0 == 1 {
        if p.2.len() == 1 && has_name(rv, p.2[0]) {
            crate::toolbox::relvars::lemma_first_named_exists(rv, p.2[0]);
        }
    } else if p.0 == 2 || p.0 == 3 {
        if has_name(m, p.1) {
            lemma_holding_index(m, p.1, p.2[0]);
        }
    }
}


/// The tuples among the first `n` whose picked values clear every precondition, in order.
pub open spec fn clearing_perms(ts: Seq<Seq<usize>>, pres: Seq<PreconditionModel>, nrv: RelVarsModel, problem: ProblemModel, n: int) -> Seq<Seq<usize>>
    decreases n,
{
    if n <= 0 {
        Seq::empty()
    } else {
        let r = clearing_perms(ts, pres, nrv, problem, n - 1);
        if all_hold(pres, chosen(nrv, ts[n - 1]), problem) { r.push(ts[n - 1]) } else { r }
    }
}

/// The numbers of values of the relevant variables.
pub open spec fn value_sizes(rv: RelVarsModel) -> Seq<usize> {
    rv.map_values(|e: (Str, Str, Seq<Str>)| e.2.len() as usize)
}

/// What `permutation_tool` answers, after the cleanup: when a variable has
/// no value, no permutation and failure; with no variables, none and whether
/// the preconditions hold as they are; with no preconditions, only the
/// permutation of first values; else every permutation of values (the first
/// variable's index changing fastest) whose values clear all preconditions.
pub open spec fn permutation_result(rv: RelVarsModel, pres: Seq<PreconditionModel>, state: StateModel, problem: ProblemModel) -> (Seq<Seq<usize>>, RelVarsModel, bool) {
    let nrv = cleanup_fold(rv, pres, state, pres.len() as int).unwrap();
    if exists|j: int| 0 <= j < nrv.len() && (#[trigger] nrv[j]).2.len() == 0 {
        (Seq::empty(), nrv, false)
    } else if nrv.len() == 0 {
        (Seq::empty(), nrv, all_hold(pres, chosen(nrv, Seq::empty()), problem))
    } else if pres.len() == 0 {
        (seq![Seq::new(nrv.len(), |i: int| 0usize)], nrv, true)
    } else {
        let ts = index_tuples(value_sizes(nrv));
        (clearing_perms(ts, pres, nrv, problem, ts.len() as int), nrv, true)
    }
}

/// Generates the lists of indexes of the values of the relevant variables
/// whose values clear all preconditions, after the cleanup; also gives the
/// cleaned relevant variables and whether the preconditions can be cleared.
pub fn permutation_tool(relevant_variables: RelVars, precondition_list: Vec<Precondition>, state: &Vec<(String, Vec<String>)>, problem: &Problem) -> (res: (Vec<Vec<usize>>, RelVars, bool))
    requires
        names_distinct(relevant_variables.deep_view()),
        forall|k: int| 0 <= k < precondition_list.len() ==> cleanable(#[trigger] precondition_list.deep_view()[k], relevant_variables.deep_view(), state.deep_view()),
        cleanup_fold(relevant_variables.deep_view(), precondition_list.deep_view(), state.deep_view(), precondition_list.len() as int) is Some,
        forall|k: int| 0 <= k < precondition_list.len() ==> precondition_checkable(#[trigger] precondition_list.deep_view()[k], relevant_variables.deep_view(), problem.state.deep_view()),
    ensures
        (res.0.deep_view(), res.1.deep_view(), res.2) == permutation_result(relevant_variables.deep_view(), precondition_list.deep_view(), state.deep_view(), problem@),
{
    let ghost rv = relevant_variables.deep_view();
    let ghost pl = precondition_list.deep_view();
    let mut permutation_list_list: Vec<Vec<usize>> = Vec::new();
    let new_relevant_variables = pre_permutation_cleanup(&precondition_list, &relevant_variables, state);
    let ghost nrv = new_relevant_variables.deep_view();
    proof {
        lemma_same_names_props(nrv, rv);
        assert(same_names(rv, nrv)) by {
            assert forall|j: int| 0 <= j < rv.len() implies (#[trigger] rv[j]).0 == nrv[j].0 && rv[j].1 == nrv[j].1 by {}
        }
        lemma_same_names_props(rv, nrv);
        assert forall|k: int| 0 <= k < precondition_list.len() implies precondition_checkable(#[trigger] pl[k], nrv, problem.state.deep_view()) by {
            lemma_checkable_same_names(pl[k], rv, nrv, problem.state.deep_view());
        }
    }
    assert(permutation_list_list.deep_view() =~= Seq::<Seq<usize>>::empty());
    let mut i: usize = 0;
    while i < new_relevant_variables.len()
        invariant
            nrv == new_relevant_variables.deep_view(),
            i <= new_relevant_variables.len(),
            forall|j: int| 0 <= j < i ==> (#[trigger] nrv[j]).2.len() > 0,
        decreases new_relevant_variables.len() - i,
    {
        assert(nrv[i as int] == new_relevant_variables@[i as int].deep_view());
        if new_relevant_variables[i].2.len() == 0 {
            return (permutation_list_list, new_relevant_variables, false);
        }
        i = i + 1;
    }
    let empty_perm: Vec<usize> = Vec::new();
    if new_relevant_variables.len() == 0 {
        let cleared = precon_cleared(&empty_perm, &new_relevant_variables, &precondition_list, problem);
        return (permutation_list_list, new_relevant_variables, cleared);
    }
    let mut sizes: Vec<usize> = Vec::new();
    let mut first: Vec<usize> = Vec::new();
    let mut q: usize = 0;
    while q < new_relevant_variables.len()
        invariant
            nrv == new_relevant_variables.deep_view(),
            q <= new_relevant_variables.len(),
            sizes@.len() == q,
            first@.len() == q,
            forall|j: int| 0 <= j < q ==> #[trigger] sizes@[j] == nrv[j].2.len(),
            forall|j: int| 0 <= j < q ==> #[trigger] first@[j] == 0,
        decreases new_relevant_variables.len() - q,
    {
        assert(nrv[q as int] == new_relevant_variables@[q as int].deep_view());
        sizes.push(new_relevant_variables[q].2.len());
        first.push(0);
        q = q + 1;
    }
    assert(sizes@ =~= value_sizes(nrv));
    if precondition_list.len() == 0 {
        proof { lemma_indices_deep(first); }
        assert(first@ =~= Seq::new(nrv.len(), |k: int| 0usize));
        permutation_list_list.push(first);
        assert(permutation_list_list.deep_view() =~= seq![Seq::new(nrv.len(), |k: int| 0usize)]);
        return (permutation_list_list, new_relevant_variables, true);
    }
    let ts = build_tuples(&sizes);
    let ghost tv = ts.deep_view();
    proof { lemma_index_tuples_bounds(sizes@); }
    let mut n: usize = 0;
    while n < ts.len()
        invariant
            tv == ts.deep_view(),
            nrv == new_relevant_variables.deep_view(),
            pl == precondition_list.deep_view(),
            names_distinct(nrv),
            forall|k: int| 0 <= k < precondition_list.len() ==> precondition_checkable(#[trigger] pl[k], nrv, problem.state.deep_view()),
            forall|k: int| 0 <= k < tv.len() ==> in_bounds(#[trigger] tv[k], sizes@),
            sizes@ == value_sizes(nrv),
            n <= ts.len(),
            permutation_list_list.deep_view() == clearing_perms(tv, pl, nrv, problem@, n as int),
        decreases ts.len() - n,
    {
        proof { lemma_indices_deep(ts@[n as int]); }
        assert(tv[n as int] == ts@[n as int].deep_view());
        assert(in_bounds(tv[n as int], sizes@));
        assert forall|k: int| 0 <= k < new_relevant_variables.len() implies ts@[n as int]@[k] < (#[trigger] new_relevant_variables@[k]).2.len() by {
            assert(nrv[k] == new_relevant_variables@[k].deep_view());
            assert(sizes@[k] == nrv[k].2.len());
        }
        if precon_cleared(&ts[n], &new_relevant_variables, &precondition_list, problem) {
            let t = copy_indices(&ts[n]);
            proof { lemma_indices_deep(t); }
            let ghost before = permutation_list_list.deep_view();
            permutation_list_list.push(t);
            assert(permutation_list_list.deep_view() =~= before.push(tv[n as int]));
        }
        n = n + 1;
    }
    (permutation_list_list, new_relevant_variables, true)
}

} // verus!
