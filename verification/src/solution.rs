//! The text of a found plan, in the format of the IPC 2020 HTN track.
use vstd::prelude::*;
use crate::datastructures::domain::Str;
use crate::datastructures::node::{RelVars, RelVarsModel, AppliedFunctions, AppliedFunctionsModel, SubtaskTypes, SubtaskTypesModel};

verus! {

/// The decimal digit `d` as text.
pub open spec fn digit_text(d: nat) -> Str {
    if d == 0 { "0"@ } else if d == 1 { "1"@ } else if d == 2 { "2"@ } else if d == 3 { "3"@ } else if d == 4 { "4"@ }
    else if d == 5 { "5"@ } else if d == 6 { "6"@ } else if d == 7 { "7"@ } else if d == 8 { "8"@ } else { "9"@ }
}

/// A number in decimal notation.
pub open spec fn decimal(n: nat) -> Str
    decreases n,
{
    if n < 10 { digit_text(n) } else { decimal(n / 10) + digit_text(n % 10) }
}

/// The first value of every relevant variable, each followed by a space.
pub open spec fn values_text(rv: RelVarsModel) -> Str
    decreases rv.len(),
{
    if rv.len() == 0 { Seq::empty() } else { values_text(rv.drop_last()) + rv.last().2[0] + " "@ }
}

/// Every id in decimal notation, each followed by a space.
pub open spec fn ids_text(ids: Seq<usize>) -> Str
    decreases ids.len(),
{
    if ids.len() == 0 { Seq::empty() } else { ids_text(ids.drop_last()) + decimal(ids.last() as nat) + " "@ }
}

/// The lines of the applied actions among the first `k` applied functions:
/// id, name and the values of the parameters.
pub open spec fn action_lines(entries: Seq<(SubtaskTypesModel, usize, Seq<usize>, RelVarsModel)>, k: int) -> Str
    decreases k,
{
    if k <= 0 {
        Seq::empty()
    } else {
        let e = entries[k - 1];
        action_lines(entries, k - 1) + match e.0 {
            SubtaskTypesModel::Action(a) => decimal(e.1 as nat) + " "@ + a.name + " "@ + values_text(e.3) + "\n"@,
            _ => Seq::empty(),
        }
    }
}

/// The lines of the applied methods among the first `k` applied functions:
/// id, task name and values, then the method's name and the ids it called.
pub open spec fn method_lines(entries: Seq<(SubtaskTypesModel, usize, Seq<usize>, RelVarsModel)>, k: int) -> Str
    decreases k,
{
    if k <= 0 {
        Seq::empty()
    } else {
        let e = entries[k - 1];
        method_lines(entries, k - 1) + match e.0 {
            SubtaskTypesModel::Method(m) => decimal(e.1 as nat) + " "@ + m.task.0 + " "@ + values_text(e.3) + "-> "@ + m.name + " "@ + ids_text(e.2) + "\n"@,
            _ => Seq::empty(),
        }
    }
}

/// The whole plan: a header naming the problem, the primitive actions, the
/// root with the functions it called, the method decompositions, and the closing mark.
pub open spec fn plan_text(name: Str, af: AppliedFunctionsModel) -> Str {
    "Solution for problem: {"@ + name + "} by Ajess19 & Andla19\n==>\n"@
        + action_lines(af.1, af.1.len() as int)
        + af.0.0 + " "@ + ids_text(af.0.1) + "\n"@
        + method_lines(af.1, af.1.len() as int)
        + "<=="@
}

/// The plan can be written: every parameter of an applied action has a value,
/// and every variable of an applied method has exactly one.
pub open spec fn plan_ready(af: AppliedFunctionsModel) -> bool {
    forall|k: int| 0 <= k < af.1.len() ==> {
        let e = #[trigger] af.1[k];
        match e.0 {
            SubtaskTypesModel::Action(_) => forall|v: int| 0 <= v < e.3.len() ==> (#[trigger] e.3[v]).2.len() > 0,
            SubtaskTypesModel::Method(_) => forall|v: int| 0 <= v < e.3.len() ==> (#[trigger] e.3[v]).2.len() == 1,
            _ => true,
        }
    }
}

fn digit_str(d: usize) -> (res: &'static str)
    requires
        d < 10,
    ensures
        res@ == digit_text(d as nat),
{
    if d == 0 { "0" } else if d == 1 { "1" } else if d == 2 { "2" } else if d == 3 { "3" } else if d == 4 { "4" }
    else if d == 5 { "5" } else if d == 6 { "6" } else if d == 7 { "7" } else if d == 8 { "8" } else { "9" }
}

fn append_decimal(s: &mut String, n: usize)
    ensures
        final(s)@ == old(s)@ + decimal(n as nat),
    decreases n,
{
    if n >= 10 {
        append_decimal(s, n / 10);
    }
    s.append(digit_str(n % 10));
    if n < 10 {
        assert(decimal(n as nat) == digit_text(n as nat));
    }
}

fn append_values(s: &mut String, rv: &RelVars)
    requires
        forall|v: int| 0 <= v < rv.len() ==> (#[trigger] rv.deep_view()[v]).2.len() > 0,
    ensures
        final(s)@ == old(s)@ + values_text(rv.deep_view()),
{
    let ghost r = rv.deep_view();
    let ghost start = s@;
    let mut v: usize = 0;
    while v < rv.len()
        invariant
            r == rv.deep_view(),
            forall|q: int| 0 <= q < rv.len() ==> (#[trigger] r[q]).2.len() > 0,
            v <= rv.len(),
            s@ == start + values_text(r.take(v as int)),
        decreases rv.len() - v,
    {
        assert(r[v as int] == rv@[v as int].deep_view());
        assert(r[v as int].2.len() > 0);
        assert(r[v as int].2[0] == rv@[v as int].2@[0]@);
        s.append(rv[v].2[0].as_str());
        s.append(" ");
        assert(r.take(v + 1).drop_last() =~= r.take(v as int));
        v = v + 1;
    }
    assert(r.take(v as int) =~= r);
}

fn append_ids(s: &mut String, ids: &Vec<usize>)
    ensures
        final(s)@ == old(s)@ + ids_text(ids@),
{
    let ghost start = s@;
    let mut k: usize = 0;
    while k < ids.len()
        invariant
            k <= ids.len(),
            s@ == start + ids_text(ids@.take(k as int)),
        decreases ids.len() - k,
    {
        append_decimal(s, ids[k]);
        s.append(" ");
        assert(ids@.take(k + 1).drop_last() =~= ids@.take(k as int));
        k = k + 1;
    }
    assert(ids@.take(k as int) =~= ids@);
}

/// Whether the plan can be written.
pub fn plan_is_ready(applied_functions: &AppliedFunctions) -> (res: bool)
    ensures
        res == plan_ready(applied_functions.deep_view()),
{
    let ghost af = applied_functions.deep_view();
    let mut k: usize = 0;
    while k < applied_functions.1.len()
        invariant
            af == applied_functions.deep_view(),
            k <= applied_functions.1.len(),
            forall|q: int| 0 <= q < k ==> {
                let e = #[trigger] af.1[q];
                match e.0 {
                    SubtaskTypesModel::Action(_) => forall|v: int| 0 <= v < e.3.len() ==> (#[trigger] e.3[v]).2.len() > 0,
                    SubtaskTypesModel::Method(_) => forall|v: int| 0 <= v < e.3.len() ==> (#[trigger] e.3[v]).2.len() == 1,
                    _ => true,
                }
            },
        decreases applied_functions.1.len() - k,
    {
        let e = &applied_functions.1[k];
        assert(af.1[k as int] == e.deep_view());
        let ghost rv = e.3.deep_view();
        let is_action = match &e.0 {
            SubtaskTypes::Action(_) => true,
            _ => false,
        };
        let is_method = match &e.0 {
            SubtaskTypes::Method(_) => true,
            _ => false,
        };
        let mut v: usize = 0;
        while v < e.3.len()
            invariant
                rv == e.3.deep_view(),
                v <= e.3.len(),
                is_action ==> forall|q: int| 0 <= q < v ==> (#[trigger] rv[q]).2.len() > 0,
                is_method ==> forall|q: int| 0 <= q < v ==> (#[trigger] rv[q]).2.len() == 1,
            decreases e.3.len() - v,
        {
            assert(rv[v as int] == e.3@[v as int].deep_view());
            let n = e.3[v].2.len();
            if (is_action && n == 0) || (is_method && n != 1) {
                assert(!plan_ready(af)) by {
                    assert(af.1[k as int].3[v as int] == rv[v as int]);
                }
                return false;
            }
            v = v + 1;
        }
        k = k + 1;
    }
    true
}

/// The text of the plan that the applied functions form, for the problem of the given name.
#[verifier::rlimit(60)]
#[verifier::spinoff_prover]
pub fn plan_text_of(problem_name: &String, applied_functions: &AppliedFunctions) -> (res: String)
    requires
        plan_ready(applied_functions.deep_view()),
    ensures
        res@ == plan_text(problem_name@, applied_functions.deep_view()),
{
    let ghost af = applied_functions.deep_view();
    let ghost es = af.1;
    let mut s = String::new();
    s.append("Solution for problem: {");
    s.append(problem_name.as_str());
    s.append("} by Ajess19 & Andla19\n==>\n");
    let ghost head = s@;
    let mut k: usize = 0;
    while k < applied_functions.1.len()
        invariant
            af == applied_functions.deep_view(),
            es == af.1,
            plan_ready(af),
            k <= applied_functions.1.len(),
            s@ == head + action_lines(es, k as int),
        decreases applied_functions.1.len() - k,
    {
        let e = &applied_functions.1[k];
        assert(es[k as int] == e.deep_view());
        match &e.0 {
            SubtaskTypes::Action(a) => {
                append_decimal(&mut s, e.1);
                s.append(" ");
                s.append(a.name.as_str());
                s.append(" ");
                assert forall|v: int| 0 <= v < e.3.len() implies (#[trigger] e.3.deep_view()[v]).2.len() > 0 by {
                    assert(es[k as int].3[v] == e.3.deep_view()[v]);
                }
                append_values(&mut s, &e.3);
                s.append("\n");
            },
            _ => {},
        }
        k = k + 1;
    }
    s.append(applied_functions.0.0.as_str());
    s.append(" ");
    append_ids(&mut s, &applied_functions.0.1);
    s.append("\n");
    proof { crate::datastructures::node::lemma_indices_view(applied_functions.0.1); }
    let ghost mid = s@;
    k = 0;
    while k < applied_functions.1.len()
        invariant
            af == applied_functions.deep_view(),
            es == af.1,
            plan_ready(af),
            k <= applied_functions.1.len(),
            s@ == mid + method_lines(es, k as int),
        decreases applied_functions.1.len() - k,
    {
        let e = &applied_functions.1[k];
        assert(es[k as int] == e.deep_view());
        match &e.0 {
            SubtaskTypes::Method(m) => {
                append_decimal(&mut s, e.1);
                s.append(" ");
                s.append(m.task.0.as_str());
                s.append(" ");
                assert forall|v: int| 0 <= v < e.3.len() implies (#[trigger] e.3.deep_view()[v]).2.len() > 0 by {
                    assert(es[k as int].3[v] == e.3.deep_view()[v]);
                }
                append_values(&mut s, &e.3);
                s.append("-> ");
                s.append(m.name.as_str());
                s.append(" ");
                append_ids(&mut s, &e.2);
                proof { crate::datastructures::node::lemma_indices_view(e.2); }
                s.append("\n");
            },
            _ => {},
        }
        k = k + 1;
    }
    s.append("<==");
    s
}

} // verus!
