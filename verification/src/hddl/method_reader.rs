//! The grammar of the methods of an HDDL domain description, and their reader.
use vstd::prelude::*;
use crate::datastructures::domain::{Str, Argument, ArgumentModel, Precondition, PreconditionModel};
use crate::hddl::lexing::{blanks_end, name_at, after_word, expect, skip_blanks, read_name};
use crate::hddl::problem_reader::{skip_word, skip_opt, spaced_names, read_spaced_names};
use crate::hddl::domain_reader::{arg_groups, read_arg_groups};
use crate::hddl::precondition_reader::{method_preconditions_at, get_method_preconditions};

verus! {

/// `(`, blanks, `:method`, blanks, its name and blanks.
pub open spec fn method_name_at(s: Seq<char>, i: int) -> Option<(Str, int)> {
    match after_word(s, i, "("@) {
        Some(a) => match after_word(s, blanks_end(s, a), ":method"@) {
            Some(b) => match name_at(s, blanks_end(s, b)) {
                Some((n, e)) => Some((n, blanks_end(s, e))),
                None => None,
            },
            None => None,
        },
        None => None,
    }
}

/// `:parameters (`, the typed parameters, `)` and blanks.
pub open spec fn method_parameters_at(s: Seq<char>, i: int) -> Option<(Seq<ArgumentModel>, int)> {
    match after_word(s, i, ":parameters ("@) {
        Some(a) => {
            let (params, k) = arg_groups(s, a, 1, "- "@, true, false);
            match after_word(s, k, ")"@) {
                Some(g) => Some((params, blanks_end(s, g))),
                None => None,
            }
        },
        None => None,
    }
}

/// `:task`, blanks, `(`, blanks, the task's name, blanks, its arguments, `)` and blanks.
pub open spec fn method_task_at(s: Seq<char>, i: int) -> Option<((Str, Seq<Str>), int)> {
    match after_word(s, i, ":task"@) {
        Some(a) => match after_word(s, blanks_end(s, a), "("@) {
            Some(b) => match name_at(s, blanks_end(s, b)) {
                Some((n, e)) => {
                    let (args, k) = spaced_names(s, blanks_end(s, e));
                    match after_word(s, k, ")"@) {
                        Some(g) => Some(((n, args), blanks_end(s, g))),
                        None => None,
                    }
                },
                None => None,
            },
            None => None,
        },
        None => None,
    }
}

/// Names, each with blanks before and after it.
pub open spec fn blank_names(s: Seq<char>, i: int) -> (Seq<Str>, int)
    decreases s.len() - i,
{
    match name_at(s, blanks_end(s, i)) {
        Some((n, e)) => {
            let k = blanks_end(s, e);
            if i < k <= s.len() {
                let (rest, j) = blank_names(s, k);
                (seq![n] + rest, j)
            } else {
                (Seq::empty(), i)
            }
        },
        None => (Seq::empty(), i),
    }
}

/// A subtask of a method: blanks, an optional `(`, blanks, a name, blanks,
/// an optional `(` with the task's name, the arguments, blanks, an optional
/// `))` or `)`, blanks and an optional `)`. Without an inner task the name
/// is both the task and its alias.
pub open spec fn method_subtask_at(s: Seq<char>, i: int) -> Option<((Str, Str, Seq<Str>), int)> {
    let p2 = blanks_end(s, skip_word(s, blanks_end(s, i), "("@));
    match name_at(s, p2) {
        Some((w1, e)) => {
            let p3 = blanks_end(s, e);
            let (inner, p4) = match after_word(s, p3, "("@) {
                Some(c) => match name_at(s, c) {
                    Some((w2, f)) => (Some(w2), f),
                    None => (None, p3),
                },
                None => (None, p3),
            };
            let (args, k) = blank_names(s, p4);
            let p5 = blanks_end(s, k);
            let p6 = match after_word(s, p5, "))"@) {
                Some(m) => m,
                None => skip_word(s, p5, ")"@),
            };
            let p7 = skip_word(s, blanks_end(s, p6), ")"@);
            match inner {
                Some(w2) => Some(((w2, w1, args), p7)),
                None => Some(((w1, w1, args), p7)),
            }
        },
        None => None,
    }
}

/// As many subtasks of a method as stand at `i`.
pub open spec fn method_subtasks_from(s: Seq<char>, i: int) -> (Seq<(Str, Str, Seq<Str>)>, int)
    decreases s.len() - i,
{
    match method_subtask_at(s, i) {
        Some((t, k)) => if i < k <= s.len() {
            let (rest, j) = method_subtasks_from(s, k);
            (seq![t] + rest, j)
        } else {
            (Seq::empty(), i)
        },
        None => (Seq::empty(), i),
    }
}

/// The word that opens the subtasks of a method, and the position after it.
pub open spec fn method_subtasks_word(s: Seq<char>, i: int) -> Option<(Str, int)> {
    match after_word(s, i, ":subtasks"@) {
        Some(a) => Some((":subtasks"@, a)),
        None => match after_word(s, i, ":ordered-subtasks"@) {
            Some(a) => Some((":ordered-subtasks"@, a)),
            None => match after_word(s, i, ":ordered-tasks"@) {
                Some(a) => Some((":ordered-tasks"@, a)),
                None => None,
            },
        },
    }
}

/// The subtasks of a method with the word that opened them.
pub open spec fn method_subtasks_at(s: Seq<char>, i: int) -> Option<((Seq<(Str, Str, Seq<Str>)>, Str), int)> {
    match method_subtasks_word(s, i) {
        Some((w, a)) => match after_word(s, blanks_end(s, a), "("@) {
            Some(b) => {
                let c = blanks_end(s, skip_word(s, b, "and"@));
                let (subs, k) = method_subtasks_from(s, c);
                Some(((subs, w), blanks_end(s, skip_word(s, k, ")"@))))
            },
            None => None,
        },
        None => None,
    }
}

/// `>` or `<` at `i`, with the position after it.
pub open spec fn method_order_sign_at(s: Seq<char>, i: int) -> Option<(Str, int)> {
    match after_word(s, i, ">"@) {
        Some(a) => Some((">"@, a)),
        None => match after_word(s, i, "<"@) {
            Some(a) => Some(("<"@, a)),
            None => None,
        },
    }
}

/// An ordering constraint of a method: `(`, the sign, blanks, a name,
/// blanks, a name, `)` and blanks.
pub open spec fn method_order_at(s: Seq<char>, i: int) -> Option<((Str, Str, Str), int)> {
    match after_word(s, i, "("@) {
        Some(a) => match method_order_sign_at(s, a) {
            Some((op, b)) => match name_at(s, blanks_end(s, b)) {
                Some((x, e)) => match name_at(s, blanks_end(s, e)) {
                    Some((y, f)) => match after_word(s, f, ")"@) {
                        Some(g) => Some(((op, x, y), blanks_end(s, g))),
                        None => None,
                    },
                    None => None,
                },
                None => None,
            },
            None => None,
        },
        None => None,
    }
}

/// As many ordering constraints of a method as stand at `i`.
pub open spec fn method_orders_from(s: Seq<char>, i: int) -> (Seq<(Str, Str, Str)>, int)
    decreases s.len() - i,
{
    match method_order_at(s, i) {
        Some((o, k)) => if i < k <= s.len() {
            let (rest, j) = method_orders_from(s, k);
            (seq![o] + rest, j)
        } else {
            (Seq::empty(), i)
        },
        None => (Seq::empty(), i),
    }
}

/// `:ordering (and`, blanks, at least one constraint, `)` and blanks.
pub open spec fn method_ordering_at(s: Seq<char>, i: int) -> Option<(Seq<(Str, Str, Str)>, int)> {
    match after_word(s, i, ":ordering (and"@) {
        Some(a) => {
            let (os, k) = method_orders_from(s, blanks_end(s, a));
            if os.len() == 0 {
                None
            } else {
                match after_word(s, k, ")"@) {
                    Some(g) => Some((os, blanks_end(s, g))),
                    None => None,
                }
            }
        },
        None => None,
    }
}

/// A variable constraint: `(`, an optional `not `, `(= `, at least one name
/// with blanks, `))` and blanks; it compares its first two names (`None`
/// where it has only one), and is an equality unless `not ` stands there.
pub open spec fn constraint_at(s: Seq<char>, i: int) -> Option<(Option<(bool, Str, Str)>, int)> {
    match after_word(s, i, "("@) {
        Some(a) => {
            let negated = after_word(s, a, "not "@) is Some;
            match after_word(s, skip_word(s, a, "not "@), "(= "@) {
                Some(b) => {
                    let (names, k) = spaced_names(s, b);
                    if names.len() == 0 {
                        None
                    } else {
                        match after_word(s, k, "))"@) {
                            Some(g) => Some((if names.len() >= 2 { Some((!negated, names[0], names[1])) } else { None }, blanks_end(s, g))),
                            None => None,
                        }
                    }
                },
                None => None,
            }
        },
        None => None,
    }
}

/// As many variable constraints as stand at `i`.
pub open spec fn constraints_from(s: Seq<char>, i: int) -> (Seq<Option<(bool, Str, Str)>>, int)
    decreases s.len() - i,
{
    match constraint_at(s, i) {
        Some((c, k)) => if i < k <= s.len() {
            let (rest, j) = constraints_from(s, k);
            (seq![c] + rest, j)
        } else {
            (Seq::empty(), i)
        },
        None => (Seq::empty(), i),
    }
}

/// `:constraints (and`, blanks, at least one constraint, `)` and blanks.
pub open spec fn method_constraints_at(s: Seq<char>, i: int) -> Option<(Seq<Option<(bool, Str, Str)>>, int)> {
    match after_word(s, i, ":constraints (and"@) {
        Some(a) => {
            let (cs, k) = constraints_from(s, blanks_end(s, a));
            if cs.len() == 0 {
                None
            } else {
                match after_word(s, k, ")"@) {
                    Some(g) => Some((cs, blanks_end(s, g))),
                    None => None,
                }
            }
        },
        None => None,
    }
}

/// What a method's text holds: name, parameters, task, preconditions,
/// subtasks with their opening word, ordering and constraints.
pub type MethodTextModel = (
    Str,
    Seq<ArgumentModel>,
    (Str, Seq<Str>),
    Option<Seq<PreconditionModel>>,
    Option<(Seq<(Str, Str, Seq<Str>)>, Str)>,
    Option<Seq<(Str, Str, Str)>>,
    Option<Seq<Option<(bool, Str, Str)>>>,
);

/// A method: its name, parameters and task, then optional preconditions,
/// subtasks, ordering and constraints, an optional `)` and blanks.
pub open spec fn method_text_at(s: Seq<char>, i: int) -> Option<(MethodTextModel, int)> {
    match method_name_at(s, i) {
        Some((n, a)) => match method_parameters_at(s, a) {
            Some((params, b)) => match method_task_at(s, b) {
                Some((task, c)) => {
                    let (pre, d) = match method_preconditions_at(s, c) {
                        Some((p, d0)) => (Some(p), d0),
                        None => (None, c),
                    };
                    let (subs, e) = match method_subtasks_at(s, d) {
                        Some((x, e0)) => (Some(x), e0),
                        None => (None, d),
                    };
                    let (ord, f) = match method_ordering_at(s, e) {
                        Some((o, f0)) => (Some(o), f0),
                        None => (None, e),
                    };
                    let (cons, g) = match method_constraints_at(s, f) {
                        Some((x, g0)) => (Some(x), g0),
                        None => (None, f),
                    };
                    Some(((n, params, task, pre, subs, ord, cons), blanks_end(s, skip_word(s, g, ")"@))))
                },
                None => None,
            },
            None => None,
        },
        None => None,
    }
}

/// As many methods as stand at `i`.
pub open spec fn method_texts(s: Seq<char>, i: int) -> (Seq<MethodTextModel>, int)
    decreases s.len() - i,
{
    match method_text_at(s, i) {
        Some((m, k)) => if i < k <= s.len() {
            let (rest, j) = method_texts(s, k);
            (seq![m] + rest, j)
        } else {
            (Seq::empty(), i)
        },
        None => (Seq::empty(), i),
    }
}

// ----------------------------------------------------------------------------
// The readers
// ----------------------------------------------------------------------------

/// A method as written in the text.
pub type MethodText = (
    String,
    Vec<Argument>,
    (String, Vec<String>),
    Option<Vec<Precondition>>,
    Option<(Vec<(String, String, Vec<String>)>, String)>,
    Option<Vec<(String, String, String)>>,
    Option<Vec<Option<(bool, String, String)>>>,
);

fn read_method_name(s: &Vec<char>, i: usize) -> (res: Option<(String, usize)>)
    requires
        i <= s.len(),
    ensures
        match res {
            Some((n, j)) => method_name_at(s@, i as int) == Some((n@, j as int)) && i < j <= s.len(),
            None => method_name_at(s@, i as int) is None,
        },
{
    let a = expect(s, i, "(")?;
    let b = expect(s, skip_blanks(s, a), ":method")?;
    let (n, e) = read_name(s, skip_blanks(s, b))?;
    Some((n, skip_blanks(s, e)))
}

fn read_method_parameters(s: &Vec<char>, i: usize) -> (res: Option<(Vec<Argument>, usize)>)
    requires
        i <= s.len(),
    ensures
        match res {
            Some((p, j)) => method_parameters_at(s@, i as int) == Some((p.deep_view(), j as int)) && i <= j <= s.len(),
            None => method_parameters_at(s@, i as int) is None,
        },
{
    proof {
        reveal_strlit("- ");
    }
    let a = expect(s, i, ":parameters (")?;
    let (params, k) = read_arg_groups(s, a, 1, "- ", true, false);
    let g = expect(s, k, ")")?;
    Some((params, skip_blanks(s, g)))
}

fn read_method_task(s: &Vec<char>, i: usize) -> (res: Option<((String, Vec<String>), usize)>)
    requires
        i <= s.len(),
    ensures
        match res {
            Some((t, j)) => method_task_at(s@, i as int) == Some((t.deep_view(), j as int)) && i <= j <= s.len(),
            None => method_task_at(s@, i as int) is None,
        },
{
    let a = expect(s, i, ":task")?;
    let b = expect(s, skip_blanks(s, a), "(")?;
    let (n, e) = read_name(s, skip_blanks(s, b))?;
    let (args, k) = read_spaced_names(s, skip_blanks(s, e));
    let g = expect(s, k, ")")?;
    Some(((n, args), skip_blanks(s, g)))
}

fn read_blank_names(s: &Vec<char>, i: usize) -> (res: (Vec<String>, usize))
    requires
        i <= s.len(),
    ensures
        blank_names(s@, i as int) == (res.0.deep_view(), res.1 as int),
        i <= res.1 <= s.len(),
{
    let mut out: Vec<String> = Vec::new();
    let mut k = i;
    loop
        invariant
            i <= k <= s.len(),
            ({
                let (rest, j) = blank_names(s@, k as int);
                blank_names(s@, i as int) == (out.deep_view() + rest, j)
            }),
        decreases s.len() - k,
    {
        match read_name(s, skip_blanks(s, k)) {
            Some((x, e)) => {
                let m = skip_blanks(s, e);
                let ghost old_out = out.deep_view();
                let ghost xv = x@;
                out.push(x);
                assert(out.deep_view() =~= old_out.push(xv));
                let ghost (rest, j) = blank_names(s@, m as int);
                assert(old_out + (seq![xv] + rest) =~= out.deep_view() + rest);
                k = m;
            },
            None => {
                assert(out.deep_view() + Seq::<Str>::empty() =~= out.deep_view());
                return (out, k);
            },
        }
    }
}

fn read_method_subtask(s: &Vec<char>, i: usize) -> (res: Option<((String, String, Vec<String>), usize)>)
    requires
        i <= s.len(),
    ensures
        match res {
            Some((t, j)) => method_subtask_at(s@, i as int) == Some((t.deep_view(), j as int)) && i < j <= s.len(),
            None => method_subtask_at(s@, i as int) is None,
        },
{
    let p2 = skip_blanks(s, skip_opt(s, skip_blanks(s, i), "("));
    let (w1, e) = read_name(s, p2)?;
    let p3 = skip_blanks(s, e);
    let (inner, p4) = match expect(s, p3, "(") {
        Some(c) => match read_name(s, c) {
            Some((w2, f)) => (Some(w2), f),
            None => (None, p3),
        },
        None => (None, p3),
    };
    let (args, k) = read_blank_names(s, p4);
    let p5 = skip_blanks(s, k);
    let p6 = match expect(s, p5, "))") {
        Some(m) => m,
        None => skip_opt(s, p5, ")"),
    };
    let p7 = skip_opt(s, skip_blanks(s, p6), ")");
    match inner {
        Some(w2) => Some(((w2, w1, args), p7)),
        None => {
            let alias = w1.clone();
            Some(((w1, alias, args), p7))
        },
    }
}

fn read_method_subtasks_from(s: &Vec<char>, i: usize) -> (res: (Vec<(String, String, Vec<String>)>, usize))
    requires
        i <= s.len(),
    ensures
        method_subtasks_from(s@, i as int) == (res.0.deep_view(), res.1 as int),
        i <= res.1 <= s.len(),
{
    let mut out: Vec<(String, String, Vec<String>)> = Vec::new();
    let mut k = i;
    loop
        invariant
            i <= k <= s.len(),
            ({
                let (rest, j) = method_subtasks_from(s@, k as int);
                method_subtasks_from(s@, i as int) == (out.deep_view() + rest, j)
            }),
        decreases s.len() - k,
    {
        match read_method_subtask(s, k) {
            Some((x, m)) => {
                let ghost old_out = out.deep_view();
                let ghost xv = x.deep_view();
                out.push(x);
                assert(out.deep_view() =~= old_out.push(xv));
                let ghost (rest, j) = method_subtasks_from(s@, m as int);
                assert(old_out + (seq![xv] + rest) =~= out.deep_view() + rest);
                k = m;
            },
            None => {
                assert(out.deep_view() + Seq::<(Str, Str, Seq<Str>)>::empty() =~= out.deep_view());
                return (out, k);
            },
        }
    }
}

fn read_method_subtasks(s: &Vec<char>, i: usize) -> (res: Option<((Vec<(String, String, Vec<String>)>, String), usize)>)
    requires
        i <= s.len(),
    ensures
        match res {
            Some((x, j)) => method_subtasks_at(s@, i as int) == Some((x.deep_view(), j as int)) && i <= j <= s.len(),
            None => method_subtasks_at(s@, i as int) is None,
        },
{
    let (w, a) = match expect(s, i, ":subtasks") {
        Some(a) => (String::from_str(":subtasks"), a),
        None => match expect(s, i, ":ordered-subtasks") {
            Some(a) => (String::from_str(":ordered-subtasks"), a),
            None => (String::from_str(":ordered-tasks"), expect(s, i, ":ordered-tasks")?),
        },
    };
    let b = expect(s, skip_blanks(s, a), "(")?;
    let c = skip_blanks(s, skip_opt(s, b, "and"));
    let (subs, k) = read_method_subtasks_from(s, c);
    Some(((subs, w), skip_blanks(s, skip_opt(s, k, ")"))))
}

fn read_method_order(s: &Vec<char>, i: usize) -> (res: Option<((String, String, String), usize)>)
    requires
        i <= s.len(),
    ensures
        match res {
            Some((o, j)) => method_order_at(s@, i as int) == Some((o.deep_view(), j as int)) && i < j <= s.len(),
            None => method_order_at(s@, i as int) is None,
        },
{
    let a = expect(s, i, "(")?;
    let (op, b) = match expect(s, a, ">") {
        Some(b) => (String::from_str(">"), b),
        None => (String::from_str("<"), expect(s, a, "<")?),
    };
    let (x, e) = read_name(s, skip_blanks(s, b))?;
    let (y, f) = read_name(s, skip_blanks(s, e))?;
    let g = expect(s, f, ")")?;
    Some(((op, x, y), skip_blanks(s, g)))
}

fn read_method_orders(s: &Vec<char>, i: usize) -> (res: (Vec<(String, String, String)>, usize))
    requires
        i <= s.len(),
    ensures
        method_orders_from(s@, i as int) == (res.0.deep_view(), res.1 as int),
        i <= res.1 <= s.len(),
{
    let mut out: Vec<(String, String, String)> = Vec::new();
    let mut k = i;
    loop
        invariant
            i <= k <= s.len(),
            ({
                let (rest, j) = method_orders_from(s@, k as int);
                method_orders_from(s@, i as int) == (out.deep_view() + rest, j)
            }),
        decreases s.len() - k,
    {
        match read_method_order(s, k) {
            Some((x, m)) => {
                let ghost old_out = out.deep_view();
                let ghost xv = x.deep_view();
                out.push(x);
                assert(out.deep_view() =~= old_out.push(xv));
                let ghost (rest, j) = method_orders_from(s@, m as int);
                assert(old_out + (seq![xv] + rest) =~= out.deep_view() + rest);
                k = m;
            },
            None => {
                assert(out.deep_view() + Seq::<(Str, Str, Str)>::empty() =~= out.deep_view());
                return (out, k);
            },
        }
    }
}

fn read_method_ordering(s: &Vec<char>, i: usize) -> (res: Option<(Vec<(String, String, String)>, usize)>)
    requires
        i <= s.len(),
    ensures
        match res {
            Some((o, j)) => method_ordering_at(s@, i as int) == Some((o.deep_view(), j as int)) && i <= j <= s.len(),
            None => method_ordering_at(s@, i as int) is None,
        },
{
    let a = expect(s, i, ":ordering (and")?;
    let (os, k) = read_method_orders(s, skip_blanks(s, a));
    if os.len() == 0 {
        return None;
    }
    let g = expect(s, k, ")")?;
    Some((os, skip_blanks(s, g)))
}

fn read_constraint(s: &Vec<char>, i: usize) -> (res: Option<(Option<(bool, String, String)>, usize)>)
    requires
        i <= s.len(),
    ensures
        match res {
            Some((c, j)) => constraint_at(s@, i as int) == Some((c.deep_view(), j as int)) && i < j <= s.len(),
            None => constraint_at(s@, i as int) is None,
        },
{
    proof {
        reveal_strlit("(");
    }
    let a = expect(s, i, "(")?;
    let negated = expect(s, a, "not ").is_some();
    let b = expect(s, skip_opt(s, a, "not "), "(= ")?;
    let (names, k) = read_spaced_names(s, b);
    if names.len() == 0 {
        return None;
    }
    let g = expect(s, k, "))")?;
    if names.len() >= 2 {
        assert(names.deep_view()[0] == names@[0]@ && names.deep_view()[1] == names@[1]@);
        Some((Some((!negated, names[0].clone(), names[1].clone())), skip_blanks(s, g)))
    } else {
        Some((None, skip_blanks(s, g)))
    }
}

fn read_constraints(s: &Vec<char>, i: usize) -> (res: (Vec<Option<(bool, String, String)>>, usize))
    requires
        i <= s.len(),
    ensures
        constraints_from(s@, i as int) == (res.0.deep_view(), res.1 as int),
        i <= res.1 <= s.len(),
{
    let mut out: Vec<Option<(bool, String, String)>> = Vec::new();
    let mut k = i;
    loop
        invariant
            i <= k <= s.len(),
            ({
                let (rest, j) = constraints_from(s@, k as int);
                constraints_from(s@, i as int) == (out.deep_view() + rest, j)
            }),
        decreases s.len() - k,
    {
        match read_constraint(s, k) {
            Some((x, m)) => {
                let ghost old_out = out.deep_view();
                let ghost xv = x.deep_view();
                out.push(x);
                assert(out.deep_view() =~= old_out.push(xv));
                let ghost (rest, j) = constraints_from(s@, m as int);
                assert(old_out + (seq![xv] + rest) =~= out.deep_view() + rest);
                k = m;
            },
            None => {
                assert(out.deep_view() + Seq::<Option<(bool, Str, Str)>>::empty() =~= out.deep_view());
                return (out, k);
            },
        }
    }
}

fn read_method_constraints(s: &Vec<char>, i: usize) -> (res: Option<(Vec<Option<(bool, String, String)>>, usize)>)
    requires
        i <= s.len(),
    ensures
        match res {
            Some((c, j)) => method_constraints_at(s@, i as int) == Some((c.deep_view(), j as int)) && i <= j <= s.len(),
            None => method_constraints_at(s@, i as int) is None,
        },
{
    let a = expect(s, i, ":constraints (and")?;
    let (cs, k) = read_constraints(s, skip_blanks(s, a));
    if cs.len() == 0 {
        return None;
    }
    let g = expect(s, k, ")")?;
    Some((cs, skip_blanks(s, g)))
}

fn read_method_text(s: &Vec<char>, i: usize) -> (res: Option<(MethodText, usize)>)
    requires
        i <= s.len(),
    ensures
        match res {
            Some((m, j)) => method_text_at(s@, i as int) == Some((m.deep_view(), j as int)) && i < j <= s.len(),
            None => method_text_at(s@, i as int) is None,
        },
{
    let (n, a) = read_method_name(s, i)?;
    let (params, b) = read_method_parameters(s, a)?;
    let (task, c) = read_method_task(s, b)?;
    let (pre, d) = match get_method_preconditions(s, c) {
        Some((p, d0)) => (Some(p), d0),
        None => (None, c),
    };
    let (subs, e) = match read_method_subtasks(s, d) {
        Some((x, e0)) => (Some(x), e0),
        None => (None, d),
    };
    let (ord, f) = match read_method_ordering(s, e) {
        Some((o, f0)) => (Some(o), f0),
        None => (None, e),
    };
    let (cons, g) = match read_method_constraints(s, f) {
        Some((x, g0)) => (Some(x), g0),
        None => (None, f),
    };
    Some(((n, params, task, pre, subs, ord, cons), skip_blanks(s, skip_opt(s, g, ")"))))
}

/// The methods of a domain as written at `i`.
pub fn read_method_texts(s: &Vec<char>, i: usize) -> (res: (Vec<MethodText>, usize))
    requires
        i <= s.len(),
    ensures
        method_texts(s@, i as int) == (res.0.deep_view(), res.1 as int),
        i <= res.1 <= s.len(),
{
    let mut out: Vec<MethodText> = Vec::new();
    let mut k = i;
    loop
        invariant
            i <= k <= s.len(),
            ({
                let (rest, j) = method_texts(s@, k as int);
                method_texts(s@, i as int) == (out.deep_view() + rest, j)
            }),
        decreases s.len() - k,
    {
        match read_method_text(s, k) {
            Some((x, m)) => {
                let ghost old_out = out.deep_view();
                let ghost xv = x.deep_view();
                out.push(x);
                assert(out.deep_view() =~= old_out.push(xv));
                let ghost (rest, j) = method_texts(s@, m as int);
                assert(old_out + (seq![xv] + rest) =~= out.deep_view() + rest);
                k = m;
            },
            None => {
                assert(out.deep_view() + Seq::<MethodTextModel>::empty() =~= out.deep_view());
                return (out, k);
            },
        }
    }
}

} // verus!
