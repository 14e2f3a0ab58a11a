//! The grammar of the parts of an HDDL domain description, and their readers.
use vstd::prelude::*;
use crate::datastructures::domain::{Str, Argument, ArgumentModel, Predicate, PredicateModel, Task, TaskModel, Action, ActionModel, Precondition, PreconditionModel, Effect, EffectModel, clone_strings};
use crate::hddl::lexing::{blanks_end, name_at, word_at, after_word, expect, skip_blanks, read_name};
use crate::hddl::problem_reader::{skip_word, skip_opt, spaced_names, read_spaced_names};

verus! {

/// How the names of a group of typed names are written, each a name that
/// does not start with `-`:
/// `0`: the name, then blanks; `1`: blanks, the name, blanks;
/// `2`: like `1`, but the blanks before the name come before the check for `-`;
/// `3`: like `2`, with no blanks after the name.
pub open spec fn typed_name_at(s: Seq<char>, i: int, mode: int) -> Option<(Str, int)> {
    let start = if mode >= 2 { blanks_end(s, i) } else { i };
    if word_at(s, start, "-"@) {
        None
    } else {
        let at = if mode == 1 { blanks_end(s, start) } else { start };
        match name_at(s, at) {
            Some((n, e)) => Some((n, if mode == 3 { e } else { blanks_end(s, e) })),
            None => None,
        }
    }
}

/// As many names of a group as stand at `i`.
pub open spec fn typed_names(s: Seq<char>, i: int, mode: int) -> (Seq<Str>, int)
    decreases s.len() - i,
{
    match typed_name_at(s, i, mode) {
        Some((n, k)) => if i < k <= s.len() {
            let (rest, j) = typed_names(s, k, mode);
            (seq![n] + rest, j)
        } else {
            (Seq::empty(), i)
        },
        None => (Seq::empty(), i),
    }
}

/// The arguments that a list of names of one type gives.
pub open spec fn arguments_of(names: Seq<Str>, t: Str) -> Seq<ArgumentModel> {
    names.map_values(|n: Str| ArgumentModel { name: n, object_type: t })
}

/// A group of typed names: names written as `mode` says (at least one where
/// `some` is set), the separator `sep`, blanks where `blank` is set, the
/// type, and blanks.
pub open spec fn arg_group_at(s: Seq<char>, i: int, mode: int, sep: Seq<char>, some: bool, blank: bool) -> Option<(Seq<ArgumentModel>, int)> {
    let (names, k) = typed_names(s, i, mode);
    if some && names.len() == 0 {
        None
    } else {
        match after_word(s, k, sep) {
            Some(a) => match name_at(s, if blank { blanks_end(s, a) } else { a }) {
                Some((t, e)) => Some((arguments_of(names, t), blanks_end(s, e))),
                None => None,
            },
            None => None,
        }
    }
}

/// As many groups of typed names as stand at `i`.
pub open spec fn arg_groups(s: Seq<char>, i: int, mode: int, sep: Seq<char>, some: bool, blank: bool) -> (Seq<ArgumentModel>, int)
    decreases s.len() - i,
{
    match arg_group_at(s, i, mode, sep, some, blank) {
        Some((g, k)) => if i < k <= s.len() {
            let (rest, j) = arg_groups(s, k, mode, sep, some, blank);
            (g + rest, j)
        } else {
            (Seq::empty(), i)
        },
        None => (Seq::empty(), i),
    }
}

/// A group of types: names, an optional `-`, blanks, an optional supertype
/// and blanks; each name is paired with the supertype (the empty text where
/// there is none).
pub open spec fn type_group_at(s: Seq<char>, i: int) -> Option<(Seq<(Str, Str)>, int)> {
    let (names, k) = typed_names(s, i, 0);
    if names.len() == 0 {
        None
    } else {
        let b = blanks_end(s, skip_word(s, k, "-"@));
        match name_at(s, b) {
            Some((t, e)) => Some((names.map_values(|n: Str| (n, t)), blanks_end(s, e))),
            None => Some((names.map_values(|n: Str| (n, Seq::<char>::empty())), b)),
        }
    }
}

/// As many groups of types as stand at `i`.
pub open spec fn type_groups(s: Seq<char>, i: int) -> (Seq<(Str, Str)>, int)
    decreases s.len() - i,
{
    match type_group_at(s, i) {
        Some((g, k)) => if i < k <= s.len() {
            let (rest, j) = type_groups(s, k);
            (g + rest, j)
        } else {
            (Seq::empty(), i)
        },
        None => (Seq::empty(), i),
    }
}

/// `(:types <groups> )`, with at least one group.
pub open spec fn types_at(s: Seq<char>, i: int) -> Option<(Seq<(Str, Str)>, int)> {
    match after_word(s, i, "(:types"@) {
        Some(a) => {
            let b = blanks_end(s, a);
            let (ts, k) = type_groups(s, b);
            if k == b {
                None
            } else {
                match after_word(s, k, ")"@) {
                    Some(g) => Some((ts, blanks_end(s, g))),
                    None => None,
                }
            }
        },
        None => None,
    }
}

/// `(:constants <groups> )`: each constant with its type.
pub open spec fn constants_at(s: Seq<char>, i: int) -> Option<(Seq<(Str, Str)>, int)> {
    match after_word(s, i, "(:constants"@) {
        Some(a) => {
            let (args, k) = arg_groups(s, blanks_end(s, a), 0, "-"@, true, true);
            match after_word(s, k, ")"@) {
                Some(g) => Some((args.map_values(|x: ArgumentModel| (x.name, x.object_type)), blanks_end(s, g))),
                None => None,
            }
        },
        None => None,
    }
}

/// A predicate: blanks, `(`, blanks, its name, blanks, its typed arguments, `)` and blanks.
pub open spec fn predicate_at(s: Seq<char>, i: int) -> Option<(PredicateModel, int)> {
    match after_word(s, blanks_end(s, i), "("@) {
        Some(a) => match name_at(s, blanks_end(s, a)) {
            Some((n, e)) => {
                let (args, k) = arg_groups(s, blanks_end(s, e), 0, "- "@, true, false);
                match after_word(s, k, ")"@) {
                    Some(g) => Some((PredicateModel { name: n, args }, blanks_end(s, g))),
                    None => None,
                }
            },
            None => None,
        },
        None => None,
    }
}

/// As many predicates as stand at `i`.
pub open spec fn predicates_from(s: Seq<char>, i: int) -> (Seq<PredicateModel>, int)
    decreases s.len() - i,
{
    match predicate_at(s, i) {
        Some((p, k)) => if i < k <= s.len() {
            let (rest, j) = predicates_from(s, k);
            (seq![p] + rest, j)
        } else {
            (Seq::empty(), i)
        },
        None => (Seq::empty(), i),
    }
}

/// `(:predicates <predicates> )`, with at least one predicate.
pub open spec fn predicates_at(s: Seq<char>, i: int) -> Option<(Seq<PredicateModel>, int)> {
    match after_word(s, i, "(:predicates"@) {
        Some(a) => {
            let (ps, k) = predicates_from(s, blanks_end(s, a));
            if ps.len() == 0 {
                None
            } else {
                match after_word(s, k, ")"@) {
                    Some(g) => Some((ps, blanks_end(s, g))),
                    None => None,
                }
            }
        },
        None => None,
    }
}


/// A task: `(:task <name>`, blanks, `:parameters`, blanks, `(`, its typed
/// parameters, `)`, blanks, `)` and blanks.
pub open spec fn task_at(s: Seq<char>, i: int) -> Option<((Str, Seq<ArgumentModel>), int)> {
    match after_word(s, i, "(:task "@) {
        Some(a) => match name_at(s, a) {
            Some((n, e)) => match after_word(s, blanks_end(s, e), ":parameters"@) {
                Some(b) => match after_word(s, blanks_end(s, b), "("@) {
                    Some(c) => {
                        let (args, k) = arg_groups(s, c, 3, " - "@, false, false);
                        match after_word(s, k, ")"@) {
                            Some(g) => match after_word(s, blanks_end(s, g), ")"@) {
                                Some(h) => Some(((n, args), blanks_end(s, h))),
                                None => None,
                            },
                            None => None,
                        }
                    },
                    None => None,
                },
                None => None,
            },
            None => None,
        },
        None => None,
    }
}

/// As many tasks as stand at `i`.
pub open spec fn tasks_from(s: Seq<char>, i: int) -> (Seq<(Str, Seq<ArgumentModel>)>, int)
    decreases s.len() - i,
{
    match task_at(s, i) {
        Some((t, k)) => if i < k <= s.len() {
            let (rest, j) = tasks_from(s, k);
            (seq![t] + rest, j)
        } else {
            (Seq::empty(), i)
        },
        None => (Seq::empty(), i),
    }
}

/// The largest number of tasks or actions whose numbers fit.
pub open spec fn max_count() -> int {
    1_000_000_000
}

/// The tasks of a domain: at least one, numbered from 1000 on, each with the alias `alias`.
pub open spec fn tasks_at(s: Seq<char>, i: int) -> Option<(Seq<TaskModel>, int)> {
    let (raw, k) = tasks_from(s, i);
    if raw.len() == 0 || raw.len() > max_count() {
        None
    } else {
        Some((Seq::new(raw.len(), |m: int| TaskModel { name: raw[m].0, parameters: raw[m].1, alias: "alias"@, id: (1000 + m) as i32 }), k))
    }
}

/// `(`, blanks, a name, blanks, names with blanks, `)` and blanks: a predicate
/// with its arguments.
pub open spec fn plain_literal_at(s: Seq<char>, i: int) -> Option<((Str, Seq<Str>), int)> {
    match after_word(s, i, "("@) {
        Some(a) => match name_at(s, blanks_end(s, a)) {
            Some((n, e)) => {
                let (args, k) = spaced_names(s, blanks_end(s, e));
                match after_word(s, k, ")"@) {
                    Some(g) => Some(((n, args), blanks_end(s, g))),
                    None => None,
                }
            },
            None => None,
        },
        None => None,
    }
}

/// `(`, blanks, `not`, blanks, a plain literal without its trailing part,
/// `)` and blanks: a negated predicate with its arguments.
pub open spec fn negated_literal_at(s: Seq<char>, i: int) -> Option<((Str, Seq<Str>), int)> {
    match after_word(s, i, "("@) {
        Some(a) => match after_word(s, blanks_end(s, a), "not"@) {
            Some(b) => match plain_literal_at(s, blanks_end(s, b)) {
                Some((l, k)) => match after_word(s, k, ")"@) {
                    Some(g) => Some((l, blanks_end(s, g))),
                    None => None,
                },
                None => None,
            },
            None => None,
        },
        None => None,
    }
}

/// `(`, blanks, `=`, blanks, names with blanks, `)` and blanks.
pub open spec fn equality_at(s: Seq<char>, i: int) -> Option<(Seq<Str>, int)> {
    match after_word(s, i, "("@) {
        Some(a) => match after_word(s, blanks_end(s, a), "="@) {
            Some(b) => {
                let (args, k) = spaced_names(s, blanks_end(s, b));
                match after_word(s, k, ")"@) {
                    Some(g) => Some((args, blanks_end(s, g))),
                    None => None,
                }
            },
            None => None,
        },
        None => None,
    }
}

/// `(`, blanks, `not`, blanks, an equality, `)` and blanks.
pub open spec fn inequality_at(s: Seq<char>, i: int) -> Option<(Seq<Str>, int)> {
    match after_word(s, i, "("@) {
        Some(a) => match after_word(s, blanks_end(s, a), "not"@) {
            Some(b) => match equality_at(s, blanks_end(s, b)) {
                Some((args, k)) => match after_word(s, k, ")"@) {
                    Some(g) => Some((args, blanks_end(s, g))),
                    None => None,
                },
                None => None,
            },
            None => None,
        },
        None => None,
    }
}

/// The name that equalities and inequalities of an action carry.
pub open spec fn no_name() -> Str {
    "no name"@
}

/// One condition of an action other than `forall`: an equality, an
/// inequality, a negated predicate or a predicate, tried in that order.
pub open spec fn simple_condition_at(s: Seq<char>, i: int) -> Option<(PreconditionModel, int)> {
    match equality_at(s, i) {
        Some((args, k)) => Some(((2i32, no_name(), args, None), k)),
        None => match inequality_at(s, i) {
            Some((args, k)) => Some(((3i32, no_name(), args, None), k)),
            None => match negated_literal_at(s, i) {
                Some(((n, args), k)) => Some(((1i32, n, args, None), k)),
                None => match plain_literal_at(s, i) {
                    Some(((n, args), k)) => Some(((0i32, n, args, None), k)),
                    None => None,
                },
            },
        },
    }
}

/// As many conditions other than `forall` as stand at `i`.
pub open spec fn simple_conditions(s: Seq<char>, i: int) -> (Seq<PreconditionModel>, int)
    decreases s.len() - i,
{
    match simple_condition_at(s, i) {
        Some((p, k)) => if i < k <= s.len() {
            let (rest, j) = simple_conditions(s, k);
            (seq![p] + rest, j)
        } else {
            (Seq::empty(), i)
        },
        None => (Seq::empty(), i),
    }
}

/// The literals that the conditions under `forall` give: positive exactly
/// where the condition is a plain predicate.
pub open spec fn forall_literals_of(ps: Seq<PreconditionModel>) -> Seq<(bool, Str, Seq<Str>)> {
    ps.map_values(|p: PreconditionModel| (p.0 == 0, p.1, p.2))
}

/// `(`, blanks, `forall`, blanks, `(`, blanks, `<var> - <type>`, blanks, `)`,
/// blanks, conditions, `)` and blanks.
pub open spec fn action_forall_at(s: Seq<char>, i: int) -> Option<(PreconditionModel, int)> {
    match after_word(s, i, "("@) {
        Some(a) => match after_word(s, blanks_end(s, a), "forall"@) {
            Some(b) => match after_word(s, blanks_end(s, b), "("@) {
                Some(c) => match name_at(s, blanks_end(s, c)) {
                    Some((v, d)) => match after_word(s, d, " - "@) {
                        Some(e) => match name_at(s, e) {
                            Some((t, f)) => match after_word(s, blanks_end(s, f), ")"@) {
                                Some(g) => {
                                    let (inner, k) = simple_conditions(s, blanks_end(s, g));
                                    match after_word(s, k, ")"@) {
                                        Some(h) => Some(((4i32, "forall"@, Seq::empty(), Some(((v, t), forall_literals_of(inner)))), blanks_end(s, h))),
                                        None => None,
                                    }
                                },
                                None => None,
                            },
                            None => None,
                        },
                        None => None,
                    },
                    None => None,
                },
                None => None,
            },
            None => None,
        },
        None => None,
    }
}

/// One condition of an action.
pub open spec fn action_condition_at(s: Seq<char>, i: int) -> Option<(PreconditionModel, int)> {
    match simple_condition_at(s, i) {
        Some(r) => Some(r),
        None => action_forall_at(s, i),
    }
}

/// As many conditions of an action as stand at `i`.
pub open spec fn action_conditions(s: Seq<char>, i: int) -> (Seq<PreconditionModel>, int)
    decreases s.len() - i,
{
    match action_condition_at(s, i) {
        Some((p, k)) => if i < k <= s.len() {
            let (rest, j) = action_conditions(s, k);
            (seq![p] + rest, j)
        } else {
            (Seq::empty(), i)
        },
        None => (Seq::empty(), i),
    }
}

/// `:precondition`, blanks, at least one condition, blanks; else
/// `:precondition`, blanks, `(`, blanks, an optional `and`, blanks,
/// conditions, `)` and blanks.
pub open spec fn action_preconditions_at(s: Seq<char>, i: int) -> Option<(Seq<PreconditionModel>, int)> {
    match after_word(s, i, ":precondition"@) {
        Some(a) => {
            let b = blanks_end(s, a);
            let (ps, k) = action_conditions(s, b);
            if ps.len() > 0 {
                Some((ps, blanks_end(s, k)))
            } else {
                match after_word(s, b, "("@) {
                    Some(c) => {
                        let d = blanks_end(s, skip_word(s, blanks_end(s, c), "and"@));
                        let (qs, m) = action_conditions(s, d);
                        match after_word(s, m, ")"@) {
                            Some(g) => Some((qs, blanks_end(s, g))),
                            None => None,
                        }
                    },
                    None => None,
                }
            }
        },
        None => None,
    }
}

/// One effect: a negated predicate (a deletion) or a predicate (an addition).
pub open spec fn effect_at(s: Seq<char>, i: int) -> Option<(EffectModel, int)> {
    match negated_literal_at(s, i) {
        Some(((n, args), k)) => Some(((false, n, args), k)),
        None => match plain_literal_at(s, i) {
            Some(((n, args), k)) => Some(((true, n, args), k)),
            None => None,
        },
    }
}

/// As many effects as stand at `i`.
pub open spec fn effects_from(s: Seq<char>, i: int) -> (Seq<EffectModel>, int)
    decreases s.len() - i,
{
    match effect_at(s, i) {
        Some((e, k)) => if i < k <= s.len() {
            let (rest, j) = effects_from(s, k);
            (seq![e] + rest, j)
        } else {
            (Seq::empty(), i)
        },
        None => (Seq::empty(), i),
    }
}

/// `:effect`, blanks, `(`, blanks, an optional `and`, blanks, effects, `)`
/// and blanks; else `:effect`, blanks, effects and blanks.
pub open spec fn action_effects_at(s: Seq<char>, i: int) -> Option<(Seq<EffectModel>, int)> {
    match after_word(s, i, ":effect"@) {
        Some(a) => {
            let b = blanks_end(s, a);
            let with_bracket = match after_word(s, b, "("@) {
                Some(c) => {
                    let d = blanks_end(s, skip_word(s, blanks_end(s, c), "and"@));
                    let (es, m) = effects_from(s, d);
                    match after_word(s, m, ")"@) {
                        Some(g) => Some((es, blanks_end(s, g))),
                        None => None,
                    }
                },
                None => None,
            };
            match with_bracket {
                Some(r) => Some(r),
                None => {
                    let (es, m) = effects_from(s, b);
                    Some((es, blanks_end(s, m)))
                },
            }
        },
        None => None,
    }
}

/// An action: `(`, blanks, `:action`, blanks, its name, blanks,
/// `:parameters (`, its typed parameters, `)`, blanks, optional
/// preconditions, optional effects, `)` and blanks.
pub open spec fn action_at(s: Seq<char>, i: int) -> Option<((Str, Seq<ArgumentModel>, Option<Seq<PreconditionModel>>, Option<Seq<EffectModel>>), int)> {
    match after_word(s, i, "("@) {
        Some(a) => match after_word(s, blanks_end(s, a), ":action"@) {
            Some(b) => match name_at(s, blanks_end(s, b)) {
                Some((n, e)) => match after_word(s, blanks_end(s, e), ":parameters ("@) {
                    Some(c) => {
                        let (params, k) = arg_groups(s, c, 2, "- "@, true, false);
                        match after_word(s, k, ")"@) {
                            Some(g) => {
                                let h = blanks_end(s, g);
                                let (pre, p) = match action_preconditions_at(s, h) {
                                    Some((ps, p0)) => (Some(ps), p0),
                                    None => (None, h),
                                };
                                let (eff, q) = match action_effects_at(s, p) {
                                    Some((es, q0)) => (Some(es), q0),
                                    None => (None, p),
                                };
                                match after_word(s, q, ")"@) {
                                    Some(r) => Some(((n, params, pre, eff), blanks_end(s, r))),
                                    None => None,
                                }
                            },
                            None => None,
                        }
                    },
                    None => None,
                },
                None => None,
            },
            None => None,
        },
        None => None,
    }
}

/// As many actions as stand at `i`.
pub open spec fn actions_from(s: Seq<char>, i: int) -> (Seq<(Str, Seq<ArgumentModel>, Option<Seq<PreconditionModel>>, Option<Seq<EffectModel>>)>, int)
    decreases s.len() - i,
{
    match action_at(s, i) {
        Some((x, k)) => if i < k <= s.len() {
            let (rest, j) = actions_from(s, k);
            (seq![x] + rest, j)
        } else {
            (Seq::empty(), i)
        },
        None => (Seq::empty(), i),
    }
}

/// The actions of a domain: at least one, numbered from 0 on.
pub open spec fn actions_at(s: Seq<char>, i: int) -> Option<(Seq<ActionModel>, int)> {
    let (raw, k) = actions_from(s, i);
    if raw.len() == 0 || raw.len() > max_count() {
        None
    } else {
        Some((Seq::new(raw.len(), |m: int| ActionModel { name: raw[m].0, parameters: raw[m].1, precondition: raw[m].2, effect: raw[m].3, id: m as i32 }), k))
    }
}

// ----------------------------------------------------------------------------
// The readers
// ----------------------------------------------------------------------------

fn read_typed_name(s: &Vec<char>, i: usize, mode: u8) -> (res: Option<(String, usize)>)
    requires
        i <= s.len(),
    ensures
        match res {
            Some((n, j)) => typed_name_at(s@, i as int, mode as int) == Some((n@, j as int)) && i < j <= s.len(),
            None => typed_name_at(s@, i as int, mode as int) is None,
        },
{
    let start = if mode >= 2 { skip_blanks(s, i) } else { i };
    if expect(s, start, "-").is_some() {
        return None;
    }
    let at = if mode == 1 { skip_blanks(s, start) } else { start };
    let (n, e) = read_name(s, at)?;
    Some((n, if mode == 3 { e } else { skip_blanks(s, e) }))
}

fn read_typed_names(s: &Vec<char>, i: usize, mode: u8) -> (res: (Vec<String>, usize))
    requires
        i <= s.len(),
    ensures
        typed_names(s@, i as int, mode as int) == (res.0.deep_view(), res.1 as int),
        i <= res.1 <= s.len(),
{
    let mut out: Vec<String> = Vec::new();
    let mut k = i;
    loop
        invariant
            i <= k <= s.len(),
            ({
                let (rest, j) = typed_names(s@, k as int, mode as int);
                typed_names(s@, i as int, mode as int) == (out.deep_view() + rest, j)
            }),
        decreases s.len() - k,
    {
        match read_typed_name(s, k, mode) {
            Some((x, m)) => {
                let ghost old_out = out.deep_view();
                let ghost xv = x@;
                out.push(x);
                assert(out.deep_view() =~= old_out.push(xv));
                let ghost (rest, j) = typed_names(s@, m as int, mode as int);
                assert(old_out + (seq![xv] + rest) =~= out.deep_view() + rest);
                k = m;
            },
            None => {
                assert(out.deep_view() + Seq::<Str>::empty() =~= out.deep_view());
                return (out, k);
            },
        }
    }
}

fn arguments_exec(names: &Vec<String>, t: &String) -> (res: Vec<Argument>)
    ensures
        res.deep_view() == arguments_of(names.deep_view(), t@),
{
    let mut out: Vec<Argument> = Vec::new();
    let mut m: usize = 0;
    while m < names.len()
        invariant
            m <= names.len(),
            out.deep_view() == arguments_of(names.deep_view(), t@).take(m as int),
        decreases names.len() - m,
    {
        let ghost before = out.deep_view();
        assert(names.deep_view()[m as int] == names@[m as int]@);
        out.push(Argument { name: names[m].clone(), object_type: t.clone() });
        assert(out.deep_view() =~= arguments_of(names.deep_view(), t@).take(m + 1)) by {
            assert(out.deep_view() =~= before.push(ArgumentModel { name: names.deep_view()[m as int], object_type: t@ }));
        }
        m = m + 1;
    }
    assert(arguments_of(names.deep_view(), t@).take(names.len() as int) =~= arguments_of(names.deep_view(), t@));
    out
}

fn read_arg_group(s: &Vec<char>, i: usize, mode: u8, sep: &str, some: bool, blank: bool) -> (res: Option<(Vec<Argument>, usize)>)
    requires
        i <= s.len(),
        sep@.len() > 0,
    ensures
        match res {
            Some((g, j)) => arg_group_at(s@, i as int, mode as int, sep@, some, blank) == Some((g.deep_view(), j as int))
                && i < j <= s.len(),
            None => arg_group_at(s@, i as int, mode as int, sep@, some, blank) is None,
        },
{
    let (names, k) = read_typed_names(s, i, mode);
    if some && names.len() == 0 {
        return None;
    }
    let a = expect(s, k, sep)?;
    let (t, e) = read_name(s, if blank { skip_blanks(s, a) } else { a })?;
    Some((arguments_exec(&names, &t), skip_blanks(s, e)))
}

pub(crate) fn read_arg_groups(s: &Vec<char>, i: usize, mode: u8, sep: &str, some: bool, blank: bool) -> (res: (Vec<Argument>, usize))
    requires
        i <= s.len(),
        sep@.len() > 0,
    ensures
        arg_groups(s@, i as int, mode as int, sep@, some, blank) == (res.0.deep_view(), res.1 as int),
        i <= res.1 <= s.len(),
{
    let mut out: Vec<Argument> = Vec::new();
    let mut k = i;
    loop
        invariant
            i <= k <= s.len(),
            sep@.len() > 0,
            ({
                let (rest, j) = arg_groups(s@, k as int, mode as int, sep@, some, blank);
                arg_groups(s@, i as int, mode as int, sep@, some, blank) == (out.deep_view() + rest, j)
            }),
        decreases s.len() - k,
    {
        match read_arg_group(s, k, mode, sep, some, blank) {
            Some((mut g, m)) => {
                let ghost old_out = out.deep_view();
                let ghost gv = g.deep_view();
                out.append(&mut g);
                assert(out.deep_view() =~= old_out + gv);
                let ghost (rest, j) = arg_groups(s@, m as int, mode as int, sep@, some, blank);
                assert(old_out + (gv + rest) =~= out.deep_view() + rest);
                k = m;
            },
            None => {
                assert(out.deep_view() + Seq::<ArgumentModel>::empty() =~= out.deep_view());
                return (out, k);
            },
        }
    }
}

fn paired_with(names: &Vec<String>, t: &String) -> (res: Vec<(String, String)>)
    ensures
        res.deep_view() == names.deep_view().map_values(|n: Str| (n, t@)),
{
    let mut out: Vec<(String, String)> = Vec::new();
    let mut m: usize = 0;
    while m < names.len()
        invariant
            m <= names.len(),
            out.deep_view() == names.deep_view().map_values(|n: Str| (n, t@)).take(m as int),
        decreases names.len() - m,
    {
        let ghost before = out.deep_view();
        assert(names.deep_view()[m as int] == names@[m as int]@);
        out.push((names[m].clone(), t.clone()));
        assert(out.deep_view() =~= names.deep_view().map_values(|n: Str| (n, t@)).take(m + 1)) by {
            assert(out.deep_view() =~= before.push((names.deep_view()[m as int], t@)));
        }
        m = m + 1;
    }
    assert(names.deep_view().map_values(|n: Str| (n, t@)).take(names.len() as int) =~= names.deep_view().map_values(|n: Str| (n, t@)));
    out
}

fn read_type_group(s: &Vec<char>, i: usize) -> (res: Option<(Vec<(String, String)>, usize)>)
    requires
        i <= s.len(),
    ensures
        match res {
            Some((g, j)) => type_group_at(s@, i as int) == Some((g.deep_view(), j as int)) && i < j <= s.len(),
            None => type_group_at(s@, i as int) is None,
        },
{
    let (names, k) = read_typed_names(s, i, 0);
    if names.len() == 0 {
        return None;
    }
    let b = skip_blanks(s, skip_opt(s, k, "-"));
    match read_name(s, b) {
        Some((t, e)) => Some((paired_with(&names, &t), skip_blanks(s, e))),
        None => {
            let empty = String::new();
            Some((paired_with(&names, &empty), b))
        },
    }
}

fn read_type_groups(s: &Vec<char>, i: usize) -> (res: (Vec<(String, String)>, usize))
    requires
        i <= s.len(),
    ensures
        type_groups(s@, i as int) == (res.0.deep_view(), res.1 as int),
        i <= res.1 <= s.len(),
{
    let mut out: Vec<(String, String)> = Vec::new();
    let mut k = i;
    loop
        invariant
            i <= k <= s.len(),
            ({
                let (rest, j) = type_groups(s@, k as int);
                type_groups(s@, i as int) == (out.deep_view() + rest, j)
            }),
        decreases s.len() - k,
    {
        match read_type_group(s, k) {
            Some((mut g, m)) => {
                let ghost old_out = out.deep_view();
                let ghost gv = g.deep_view();
                out.append(&mut g);
                assert(out.deep_view() =~= old_out + gv);
                let ghost (rest, j) = type_groups(s@, m as int);
                assert(old_out + (gv + rest) =~= out.deep_view() + rest);
                k = m;
            },
            None => {
                assert(out.deep_view() + Seq::<(Str, Str)>::empty() =~= out.deep_view());
                return (out, k);
            },
        }
    }
}

/// The types of a domain written at `i`: each type with its supertype.
pub fn get_domain_types(s: &Vec<char>, i: usize) -> (res: Option<(Vec<(String, String)>, usize)>)
    requires
        i <= s.len(),
    ensures
        match res {
            Some((t, j)) => types_at(s@, i as int) == Some((t.deep_view(), j as int)) && j <= s.len(),
            None => types_at(s@, i as int) is None,
        },
{
    let a = expect(s, i, "(:types")?;
    let b = skip_blanks(s, a);
    let (ts, k) = read_type_groups(s, b);
    if k == b {
        return None;
    }
    let g = expect(s, k, ")")?;
    Some((ts, skip_blanks(s, g)))
}

/// The constants of a domain written at `i`, each with its type.
pub fn get_domain_constants(s: &Vec<char>, i: usize) -> (res: Option<(Vec<(String, String)>, usize)>)
    requires
        i <= s.len(),
    ensures
        match res {
            Some((c, j)) => constants_at(s@, i as int) == Some((c.deep_view(), j as int)) && j <= s.len(),
            None => constants_at(s@, i as int) is None,
        },
{
    proof {
        reveal_strlit("-");
    }
    let a = expect(s, i, "(:constants")?;
    let (args, k) = read_arg_groups(s, skip_blanks(s, a), 0, "-", true, true);
    let g = expect(s, k, ")")?;
    let ghost av = args.deep_view();
    let mut out: Vec<(String, String)> = Vec::new();
    let mut m: usize = 0;
    while m < args.len()
        invariant
            m <= args.len(),
            av == args.deep_view(),
            out.deep_view() == av.map_values(|x: ArgumentModel| (x.name, x.object_type)).take(m as int),
        decreases args.len() - m,
    {
        let ghost before = out.deep_view();
        assert(av[m as int] == args@[m as int]@);
        out.push((args[m].name.clone(), args[m].object_type.clone()));
        assert(out.deep_view() =~= av.map_values(|x: ArgumentModel| (x.name, x.object_type)).take(m + 1)) by {
            assert(out.deep_view() =~= before.push((av[m as int].name, av[m as int].object_type)));
        }
        m = m + 1;
    }
    assert(av.map_values(|x: ArgumentModel| (x.name, x.object_type)).take(args.len() as int)
        =~= av.map_values(|x: ArgumentModel| (x.name, x.object_type)));
    Some((out, skip_blanks(s, g)))
}

fn read_predicate(s: &Vec<char>, i: usize) -> (res: Option<(Predicate, usize)>)
    requires
        i <= s.len(),
    ensures
        match res {
            Some((p, j)) => predicate_at(s@, i as int) == Some((p@, j as int)) && i < j <= s.len(),
            None => predicate_at(s@, i as int) is None,
        },
{
    proof {
        reveal_strlit("- ");
    }
    let a = expect(s, skip_blanks(s, i), "(")?;
    let (n, e) = read_name(s, skip_blanks(s, a))?;
    let (args, k) = read_arg_groups(s, skip_blanks(s, e), 0, "- ", true, false);
    let g = expect(s, k, ")")?;
    Some((Predicate { name: n, args }, skip_blanks(s, g)))
}

fn read_predicates(s: &Vec<char>, i: usize) -> (res: (Vec<Predicate>, usize))
    requires
        i <= s.len(),
    ensures
        predicates_from(s@, i as int) == (res.0.deep_view(), res.1 as int),
        i <= res.1 <= s.len(),
{
    let mut out: Vec<Predicate> = Vec::new();
    let mut k = i;
    loop
        invariant
            i <= k <= s.len(),
            ({
                let (rest, j) = predicates_from(s@, k as int);
                predicates_from(s@, i as int) == (out.deep_view() + rest, j)
            }),
        decreases s.len() - k,
    {
        match read_predicate(s, k) {
            Some((x, m)) => {
                let ghost old_out = out.deep_view();
                let ghost xv = x@;
                out.push(x);
                assert(out.deep_view() =~= old_out.push(xv));
                let ghost (rest, j) = predicates_from(s@, m as int);
                assert(old_out + (seq![xv] + rest) =~= out.deep_view() + rest);
                k = m;
            },
            None => {
                assert(out.deep_view() + Seq::<PredicateModel>::empty() =~= out.deep_view());
                return (out, k);
            },
        }
    }
}

/// The predicates of a domain written at `i`.
pub fn get_domain_predicates(s: &Vec<char>, i: usize) -> (res: Option<(Vec<Predicate>, usize)>)
    requires
        i <= s.len(),
    ensures
        match res {
            Some((p, j)) => predicates_at(s@, i as int) == Some((p.deep_view(), j as int)) && j <= s.len(),
            None => predicates_at(s@, i as int) is None,
        },
{
    let a = expect(s, i, "(:predicates")?;
    let (ps, k) = read_predicates(s, skip_blanks(s, a));
    if ps.len() == 0 {
        return None;
    }
    let g = expect(s, k, ")")?;
    Some((ps, skip_blanks(s, g)))
}


fn read_task(s: &Vec<char>, i: usize) -> (res: Option<((String, Vec<Argument>), usize)>)
    requires
        i <= s.len(),
    ensures
        match res {
            Some((t, j)) => task_at(s@, i as int) == Some(((t.0@, t.1.deep_view()), j as int)) && i < j <= s.len(),
            None => task_at(s@, i as int) is None,
        },
{
    proof {
        reveal_strlit(" - ");
    }
    let a = expect(s, i, "(:task ")?;
    let (n, e) = read_name(s, a)?;
    let b = expect(s, skip_blanks(s, e), ":parameters")?;
    let c = expect(s, skip_blanks(s, b), "(")?;
    let (args, k) = read_arg_groups(s, c, 3, " - ", false, false);
    let g = expect(s, k, ")")?;
    let h = expect(s, skip_blanks(s, g), ")")?;
    Some(((n, args), skip_blanks(s, h)))
}

/// The tasks of a domain written at `i`, numbered from 1000 on.
pub fn get_domain_tasks(s: &Vec<char>, i: usize) -> (res: Option<(Vec<Task>, usize)>)
    requires
        i <= s.len(),
    ensures
        match res {
            Some((t, j)) => tasks_at(s@, i as int) == Some((t.deep_view(), j as int)) && j <= s.len(),
            None => tasks_at(s@, i as int) is None,
        },
{
    let ghost start = tasks_from(s@, i as int);
    let mut out: Vec<Task> = Vec::new();
    let ghost mut raw: Seq<(Str, Seq<ArgumentModel>)> = Seq::empty();
    let mut k = i;
    loop
        invariant
            i <= k <= s.len(),
            ({
                let (rest, j) = tasks_from(s@, k as int);
                start == (raw + rest, j)
            }),
            out.len() == raw.len(),
            raw.len() <= max_count(),
            forall|m: int| 0 <= m < out.len() ==> (#[trigger] out.deep_view()[m]) == (TaskModel {
                name: raw[m].0, parameters: raw[m].1, alias: "alias"@, id: (1000 + m) as i32 }),
        decreases s.len() - k,
    {
        match read_task(s, k) {
            Some(((n, args), m)) => {
                if out.len() >= 1_000_000_000 {
                    proof {
                        let (rest, j) = tasks_from(s@, m as int);
                        assert(start.0.len() > max_count());
                    }
                    return None;
                }
                let ghost xv = (n@, args.deep_view());
                let id: i32 = 1000 + (out.len() as i32);
                let ghost old_out = out.deep_view();
                let ghost old_raw = raw;
                out.push(Task { name: n, parameters: args, alias: String::from_str("alias"), id });
                proof {
                    raw = raw.push(xv);
                    assert(out.deep_view() =~= old_out.push(out.deep_view()[out.len() - 1]));
                    let (rest, j) = tasks_from(s@, m as int);
                    assert(old_raw + (seq![xv] + rest) =~= raw + rest);
                }
                k = m;
            },
            None => {
                assert(raw + Seq::<(Str, Seq<ArgumentModel>)>::empty() =~= raw);
                if out.len() == 0 {
                    return None;
                }
                assert(out.deep_view() =~= Seq::new(raw.len(), |m: int| TaskModel { name: raw[m].0, parameters: raw[m].1, alias: "alias"@, id: (1000 + m) as i32 }));
                return Some((out, k));
            },
        }
    }
}

fn read_plain_literal(s: &Vec<char>, i: usize) -> (res: Option<((String, Vec<String>), usize)>)
    requires
        i <= s.len(),
    ensures
        match res {
            Some((l, j)) => plain_literal_at(s@, i as int) == Some((l.deep_view(), j as int)) && i < j <= s.len(),
            None => plain_literal_at(s@, i as int) is None,
        },
{
    let a = expect(s, i, "(")?;
    let (n, e) = read_name(s, skip_blanks(s, a))?;
    let (args, k) = read_spaced_names(s, skip_blanks(s, e));
    let g = expect(s, k, ")")?;
    Some(((n, args), skip_blanks(s, g)))
}

fn read_negated_literal(s: &Vec<char>, i: usize) -> (res: Option<((String, Vec<String>), usize)>)
    requires
        i <= s.len(),
    ensures
        match res {
            Some((l, j)) => negated_literal_at(s@, i as int) == Some((l.deep_view(), j as int)) && i < j <= s.len(),
            None => negated_literal_at(s@, i as int) is None,
        },
{
    let a = expect(s, i, "(")?;
    let b = expect(s, skip_blanks(s, a), "not")?;
    let (l, k) = read_plain_literal(s, skip_blanks(s, b))?;
    let g = expect(s, k, ")")?;
    Some((l, skip_blanks(s, g)))
}

fn read_equality(s: &Vec<char>, i: usize) -> (res: Option<(Vec<String>, usize)>)
    requires
        i <= s.len(),
    ensures
        match res {
            Some((l, j)) => equality_at(s@, i as int) == Some((l.deep_view(), j as int)) && i < j <= s.len(),
            None => equality_at(s@, i as int) is None,
        },
{
    proof {
        reveal_strlit("(");
    }
    let a = expect(s, i, "(")?;
    let b = expect(s, skip_blanks(s, a), "=")?;
    let (args, k) = read_spaced_names(s, skip_blanks(s, b));
    let g = expect(s, k, ")")?;
    Some((args, skip_blanks(s, g)))
}

fn read_inequality(s: &Vec<char>, i: usize) -> (res: Option<(Vec<String>, usize)>)
    requires
        i <= s.len(),
    ensures
        match res {
            Some((l, j)) => inequality_at(s@, i as int) == Some((l.deep_view(), j as int)) && i < j <= s.len(),
            None => inequality_at(s@, i as int) is None,
        },
{
    proof {
        reveal_strlit("(");
    }
    let a = expect(s, i, "(")?;
    let b = expect(s, skip_blanks(s, a), "not")?;
    let (args, k) = read_equality(s, skip_blanks(s, b))?;
    let g = expect(s, k, ")")?;
    Some((args, skip_blanks(s, g)))
}

fn read_simple_condition(s: &Vec<char>, i: usize) -> (res: Option<(Precondition, usize)>)
    requires
        i <= s.len(),
    ensures
        match res {
            Some((p, j)) => simple_condition_at(s@, i as int) == Some((p.deep_view(), j as int)) && i < j <= s.len(),
            None => simple_condition_at(s@, i as int) is None,
        },
{
    if let Some((args, k)) = read_equality(s, i) {
        return Some(((2i32, String::from_str("no name"), args, None), k));
    }
    if let Some((args, k)) = read_inequality(s, i) {
        return Some(((3i32, String::from_str("no name"), args, None), k));
    }
    if let Some(((n, args), k)) = read_negated_literal(s, i) {
        return Some(((1i32, n, args, None), k));
    }
    let ((n, args), k) = read_plain_literal(s, i)?;
    Some(((0i32, n, args, None), k))
}

fn read_simple_conditions(s: &Vec<char>, i: usize) -> (res: (Vec<Precondition>, usize))
    requires
        i <= s.len(),
    ensures
        simple_conditions(s@, i as int) == (res.0.deep_view(), res.1 as int),
        i <= res.1 <= s.len(),
{
    let mut out: Vec<Precondition> = Vec::new();
    let mut k = i;
    loop
        invariant
            i <= k <= s.len(),
            ({
                let (rest, j) = simple_conditions(s@, k as int);
                simple_conditions(s@, i as int) == (out.deep_view() + rest, j)
            }),
        decreases s.len() - k,
    {
        match read_simple_condition(s, k) {
            Some((x, m)) => {
                let ghost old_out = out.deep_view();
                let ghost xv = x.deep_view();
                out.push(x);
                assert(out.deep_view() =~= old_out.push(xv));
                let ghost (rest, j) = simple_conditions(s@, m as int);
                assert(old_out + (seq![xv] + rest) =~= out.deep_view() + rest);
                k = m;
            },
            None => {
                assert(out.deep_view() + Seq::<PreconditionModel>::empty() =~= out.deep_view());
                return (out, k);
            },
        }
    }
}

fn forall_literals_exec(ps: Vec<Precondition>) -> (res: Vec<(bool, String, Vec<String>)>)
    ensures
        res.deep_view() == forall_literals_of(ps.deep_view()),
{
    let ghost pv = ps.deep_view();
    let mut out: Vec<(bool, String, Vec<String>)> = Vec::new();
    let mut m: usize = 0;
    while m < ps.len()
        invariant
            m <= ps.len(),
            pv == ps.deep_view(),
            out.deep_view() == forall_literals_of(pv).take(m as int),
        decreases ps.len() - m,
    {
        let ghost before = out.deep_view();
        assert(pv[m as int] == ps@[m as int].deep_view());
        out.push((ps[m].0 == 0, ps[m].1.clone(), clone_strings(&ps[m].2)));
        assert(out.deep_view() =~= forall_literals_of(pv).take(m + 1)) by {
            assert(out.deep_view() =~= before.push((pv[m as int].0 == 0, pv[m as int].1, pv[m as int].2)));
        }
        m = m + 1;
    }
    assert(forall_literals_of(pv).take(ps.len() as int) =~= forall_literals_of(pv));
    out
}

fn read_action_forall(s: &Vec<char>, i: usize) -> (res: Option<(Precondition, usize)>)
    requires
        i <= s.len(),
    ensures
        match res {
            Some((p, j)) => action_forall_at(s@, i as int) == Some((p.deep_view(), j as int)) && i < j <= s.len(),
            None => action_forall_at(s@, i as int) is None,
        },
{
    proof {
        reveal_strlit("(");
    }
    let a = expect(s, i, "(")?;
    let b = expect(s, skip_blanks(s, a), "forall")?;
    let c = expect(s, skip_blanks(s, b), "(")?;
    let (v, d) = read_name(s, skip_blanks(s, c))?;
    let e = expect(s, d, " - ")?;
    let (t, f) = read_name(s, e)?;
    let g = expect(s, skip_blanks(s, f), ")")?;
    let (inner, k) = read_simple_conditions(s, skip_blanks(s, g));
    let h = expect(s, k, ")")?;
    let lits = forall_literals_exec(inner);
    Some(((4i32, String::from_str("forall"), Vec::new(), Some(((v, t), lits))), skip_blanks(s, h)))
}

fn read_action_conditions(s: &Vec<char>, i: usize) -> (res: (Vec<Precondition>, usize))
    requires
        i <= s.len(),
    ensures
        action_conditions(s@, i as int) == (res.0.deep_view(), res.1 as int),
        i <= res.1 <= s.len(),
{
    let mut out: Vec<Precondition> = Vec::new();
    let mut k = i;
    loop
        invariant
            i <= k <= s.len(),
            ({
                let (rest, j) = action_conditions(s@, k as int);
                action_conditions(s@, i as int) == (out.deep_view() + rest, j)
            }),
        decreases s.len() - k,
    {
        let r = match read_simple_condition(s, k) {
            Some(r) => Some(r),
            None => read_action_forall(s, k),
        };
        match r {
            Some((x, m)) => {
                let ghost old_out = out.deep_view();
                let ghost xv = x.deep_view();
                out.push(x);
                assert(out.deep_view() =~= old_out.push(xv));
                let ghost (rest, j) = action_conditions(s@, m as int);
                assert(old_out + (seq![xv] + rest) =~= out.deep_view() + rest);
                k = m;
            },
            None => {
                assert(out.deep_view() + Seq::<PreconditionModel>::empty() =~= out.deep_view());
                return (out, k);
            },
        }
    }
}

/// The preconditions of an action written at `i`.
pub fn get_action_precondition(s: &Vec<char>, i: usize) -> (res: Option<(Vec<Precondition>, usize)>)
    requires
        i <= s.len(),
    ensures
        match res {
            Some((p, j)) => action_preconditions_at(s@, i as int) == Some((p.deep_view(), j as int)) && i <= j <= s.len(),
            None => action_preconditions_at(s@, i as int) is None,
        },
{
    let a = expect(s, i, ":precondition")?;
    let b = skip_blanks(s, a);
    let (ps, k) = read_action_conditions(s, b);
    if ps.len() > 0 {
        return Some((ps, skip_blanks(s, k)));
    }
    let c = expect(s, b, "(")?;
    let d = skip_blanks(s, skip_opt(s, skip_blanks(s, c), "and"));
    let (qs, m) = read_action_conditions(s, d);
    let g = expect(s, m, ")")?;
    Some((qs, skip_blanks(s, g)))
}

fn read_effects(s: &Vec<char>, i: usize) -> (res: (Vec<Effect>, usize))
    requires
        i <= s.len(),
    ensures
        effects_from(s@, i as int) == (res.0.deep_view(), res.1 as int),
        i <= res.1 <= s.len(),
{
    let mut out: Vec<Effect> = Vec::new();
    let mut k = i;
    loop
        invariant
            i <= k <= s.len(),
            ({
                let (rest, j) = effects_from(s@, k as int);
                effects_from(s@, i as int) == (out.deep_view() + rest, j)
            }),
        decreases s.len() - k,
    {
        let r = match read_negated_literal(s, k) {
            Some(((n, args), m)) => Some(((false, n, args), m)),
            None => match read_plain_literal(s, k) {
                Some(((n, args), m)) => Some(((true, n, args), m)),
                None => None,
            },
        };
        match r {
            Some((x, m)) => {
                let ghost old_out = out.deep_view();
                let ghost xv = x.deep_view();
                out.push(x);
                assert(out.deep_view() =~= old_out.push(xv));
                let ghost (rest, j) = effects_from(s@, m as int);
                assert(old_out + (seq![xv] + rest) =~= out.deep_view() + rest);
                k = m;
            },
            None => {
                assert(out.deep_view() + Seq::<EffectModel>::empty() =~= out.deep_view());
                return (out, k);
            },
        }
    }
}

/// The effects of an action written at `i`.
pub fn get_action_effects(s: &Vec<char>, i: usize) -> (res: Option<(Vec<Effect>, usize)>)
    requires
        i <= s.len(),
    ensures
        match res {
            Some((e, j)) => action_effects_at(s@, i as int) == Some((e.deep_view(), j as int)) && i <= j <= s.len(),
            None => action_effects_at(s@, i as int) is None,
        },
{
    let a = expect(s, i, ":effect")?;
    let b = skip_blanks(s, a);
    if let Some(c) = expect(s, b, "(") {
        let d = skip_blanks(s, skip_opt(s, skip_blanks(s, c), "and"));
        let (es, m) = read_effects(s, d);
        if let Some(g) = expect(s, m, ")") {
            return Some((es, skip_blanks(s, g)));
        }
    }
    let (es, m) = read_effects(s, b);
    Some((es, skip_blanks(s, m)))
}

fn read_action(s: &Vec<char>, i: usize) -> (res: Option<((String, Vec<Argument>, Option<Vec<Precondition>>, Option<Vec<Effect>>), usize)>)
    requires
        i <= s.len(),
    ensures
        match res {
            Some((x, j)) => action_at(s@, i as int) == Some((x.deep_view(), j as int)) && i < j <= s.len(),
            None => action_at(s@, i as int) is None,
        },
{
    proof {
        reveal_strlit("(");
        reveal_strlit("- ");
    }
    let a = expect(s, i, "(")?;
    let b = expect(s, skip_blanks(s, a), ":action")?;
    let (n, e) = read_name(s, skip_blanks(s, b))?;
    let c = expect(s, skip_blanks(s, e), ":parameters (")?;
    let (params, k) = read_arg_groups(s, c, 2, "- ", true, false);
    let g = expect(s, k, ")")?;
    let h = skip_blanks(s, g);
    let (pre, p) = match get_action_precondition(s, h) {
        Some((ps, p0)) => (Some(ps), p0),
        None => (None, h),
    };
    let (eff, q) = match get_action_effects(s, p) {
        Some((es, q0)) => (Some(es), q0),
        None => (None, p),
    };
    let r = expect(s, q, ")")?;
    Some(((n, params, pre, eff), skip_blanks(s, r)))
}

/// The actions of a domain written at `i`, numbered from 0 on.
pub fn get_domain_actions(s: &Vec<char>, i: usize) -> (res: Option<(Vec<Action>, usize)>)
    requires
        i <= s.len(),
    ensures
        match res {
            Some((a, j)) => actions_at(s@, i as int) == Some((a.deep_view(), j as int)) && j <= s.len(),
            None => actions_at(s@, i as int) is None,
        },
{
    let ghost start = actions_from(s@, i as int);
    let mut out: Vec<Action> = Vec::new();
    let ghost mut raw: Seq<(Str, Seq<ArgumentModel>, Option<Seq<PreconditionModel>>, Option<Seq<EffectModel>>)> = Seq::empty();
    let mut k = i;
    loop
        invariant
            i <= k <= s.len(),
            ({
                let (rest, j) = actions_from(s@, k as int);
                start == (raw + rest, j)
            }),
            out.len() == raw.len(),
            raw.len() <= max_count(),
            forall|m: int| 0 <= m < out.len() ==> (#[trigger] out.deep_view()[m]) == (ActionModel {
                name: raw[m].0, parameters: raw[m].1, precondition: raw[m].2, effect: raw[m].3, id: m as i32 }),
        decreases s.len() - k,
    {
        match read_action(s, k) {
            Some(((n, params, pre, eff), m)) => {
                if out.len() >= 1_000_000_000 {
                    proof {
                        let (rest, j) = actions_from(s@, m as int);
                        assert(start.0.len() > max_count());
                    }
                    return None;
                }
                let ghost xv = (n@, params.deep_view(), pre.deep_view(), eff.deep_view());
                let id: i32 = out.len() as i32;
                let ghost old_out = out.deep_view();
                let ghost old_raw = raw;
                out.push(Action { name: n, parameters: params, precondition: pre, effect: eff, id });
                proof {
                    raw = raw.push(xv);
                    assert(out.deep_view() =~= old_out.push(out.deep_view()[out.len() - 1]));
                    let (rest, j) = actions_from(s@, m as int);
                    assert(old_raw + (seq![xv] + rest) =~= raw + rest);
                }
                k = m;
            },
            None => {
                assert(raw + Seq::<(Str, Seq<ArgumentModel>, Option<Seq<PreconditionModel>>, Option<Seq<EffectModel>>)>::empty() =~= raw);
                if out.len() == 0 {
                    return None;
                }
                assert(out.deep_view() =~= Seq::new(raw.len(), |m: int| ActionModel { name: raw[m].0, parameters: raw[m].1, precondition: raw[m].2, effect: raw[m].3, id: m as i32 }));
                return Some((out, k));
            },
        }
    }
}

} // verus!
