//! The grammar of an HDDL problem description, and its reader.
//!
//! Each spec function below reads one part of the grammar at a position of the
//! (comment-free) text and gives what it read with the position after it, or
//! `None` where the part is not there. A repeated part is read as often as it
//! stands there; an optional one leaves the position where it is when absent.
use vstd::prelude::*;
use crate::datastructures::domain::Str;
use crate::datastructures::problem::{Problem, ProblemModel, Htn, HtnModel, StateModel, Object};
use crate::hddl::subtask_order::{ordered_subtasks, order_subtasks};
use crate::hddl::lexing::{uncommented, chars_of, strip_comments, blanks_end, name_at, alnum_at, read_alnum, word_at, after_word, expect, skip_blanks, read_name};

verus! {

// ----------------------------------------------------------------------------
// The grammar
// ----------------------------------------------------------------------------

/// The first position at or after `i` where the text `t` stands.
pub open spec fn find_from(s: Seq<char>, i: int, t: Seq<char>) -> Option<int>
    decreases s.len() - i,
{
    if 0 <= i <= s.len() && word_at(s, i, t) {
        Some(i)
    } else if 0 <= i < s.len() {
        find_from(s, i + 1, t)
    } else {
        None
    }
}

/// `( <word> <blanks> <name> <blanks> ) <blanks>`: a header such as
/// `(problem p1)` or `(:domain d)`, giving the name.
pub open spec fn header_at(s: Seq<char>, i: int, word: Seq<char>) -> Option<(Str, int)> {
    match after_word(s, i, word) {
        Some(a) => match name_at(s, blanks_end(s, a)) {
            Some((n, e)) => match after_word(s, blanks_end(s, e), ")"@) {
                Some(g) => Some((n, blanks_end(s, g))),
                None => None,
            },
            None => None,
        },
        None => None,
    }
}

/// `(define <blanks> (problem <name>)`: the problem's name.
pub open spec fn problem_name_at(s: Seq<char>, i: int) -> Option<(Str, int)> {
    match after_word(s, i, "(define"@) {
        Some(a) => header_at(s, blanks_end(s, a), "(problem"@),
        None => None,
    }
}

/// The names of one group of objects: names, each followed by blanks, none
/// starting with `-`.
pub open spec fn object_names(s: Seq<char>, i: int) -> (Seq<Str>, int)
    decreases s.len() - i,
{
    if !word_at(s, i, "-"@) {
        match name_at(s, i) {
            Some((n, e)) => {
                let k = blanks_end(s, e);
                if i < k <= s.len() {
                    let (rest, j) = object_names(s, k);
                    (seq![n] + rest, j)
                } else {
                    (Seq::empty(), i)
                }
            },
            None => (Seq::empty(), i),
        }
    } else {
        (Seq::empty(), i)
    }
}

/// The objects of a list of names, all of one type.
pub open spec fn typed_objects(names: Seq<Str>, t: Str) -> Seq<(Str, Str, Seq<Str>)> {
    names.map_values(|n: Str| (n, t, Seq::<Str>::empty()))
}

/// One group of objects: at least one name, then `- ` and their type.
pub open spec fn object_group_at(s: Seq<char>, i: int) -> Option<(Seq<(Str, Str, Seq<Str>)>, int)> {
    let (names, k) = object_names(s, i);
    if names.len() == 0 {
        None
    } else {
        match after_word(s, k, "- "@) {
            Some(a) => match name_at(s, a) {
                Some((t, e)) => Some((typed_objects(names, t), blanks_end(s, e))),
                None => None,
            },
            None => None,
        }
    }
}

/// As many groups of objects as stand at `i`.
pub open spec fn object_groups(s: Seq<char>, i: int) -> (Seq<(Str, Str, Seq<Str>)>, int)
    decreases s.len() - i,
{
    match object_group_at(s, i) {
        Some((g, k)) => if i < k <= s.len() {
            let (rest, j) = object_groups(s, k);
            (g + rest, j)
        } else {
            (Seq::empty(), i)
        },
        None => (Seq::empty(), i),
    }
}

/// `(:objects <groups> )`, with at least one group.
pub open spec fn objects_at(s: Seq<char>, i: int) -> Option<(Seq<(Str, Str, Seq<Str>)>, int)> {
    match after_word(s, i, "(:objects"@) {
        Some(a) => {
            let b = blanks_end(s, a);
            let (objs, k) = object_groups(s, b);
            if k == b {
                None
            } else {
                match after_word(s, k, ")"@) {
                    Some(g) => Some((objs, blanks_end(s, g))),
                    None => None,
                }
            }
        },
        None => None,
    }
}

/// The words of a fact: names, each followed by at most one space.
pub open spec fn fact_words(s: Seq<char>, i: int) -> (Seq<Str>, int)
    decreases s.len() - i,
{
    match name_at(s, i) {
        Some((n, e)) => {
            let k = match after_word(s, e, " "@) {
                Some(m) => m,
                None => e,
            };
            if i < k <= s.len() {
                let (rest, j) = fact_words(s, k);
                (seq![n] + rest, j)
            } else {
                (Seq::empty(), i)
            }
        },
        None => (Seq::empty(), i),
    }
}

/// A fact of the initial state: `(`, its words, `)` and blanks; the first
/// word is the predicate, the others its arguments.
pub open spec fn fact_at(s: Seq<char>, i: int) -> Option<((Str, Seq<Str>), int)> {
    match after_word(s, i, "("@) {
        Some(a) => {
            let (ws, k) = fact_words(s, a);
            if ws.len() == 0 {
                None
            } else {
                match after_word(s, k, ")"@) {
                    Some(g) => Some(((ws[0], ws.drop_first()), blanks_end(s, g))),
                    None => None,
                }
            }
        },
        None => None,
    }
}

/// As many facts as stand at `i`.
pub open spec fn facts_from(s: Seq<char>, i: int) -> (StateModel, int)
    decreases s.len() - i,
{
    match fact_at(s, i) {
        Some((f, k)) => if i < k <= s.len() {
            let (rest, j) = facts_from(s, k);
            (seq![f] + rest, j)
        } else {
            (Seq::empty(), i)
        },
        None => (Seq::empty(), i),
    }
}

/// `k` moved past `t` where `t` stands there.
pub open spec fn skip_word(s: Seq<char>, k: int, t: Seq<char>) -> int {
    match after_word(s, k, t) {
        Some(m) => m,
        None => k,
    }
}

/// `(:init <facts> [)]`, with at least one fact.
pub open spec fn init_at(s: Seq<char>, i: int) -> Option<(StateModel, int)> {
    match after_word(s, i, "(:init"@) {
        Some(a) => {
            let b = blanks_end(s, a);
            let (facts, k) = facts_from(s, b);
            if facts.len() == 0 {
                None
            } else {
                Some((facts, blanks_end(s, skip_word(s, k, ")"@))))
            }
        },
        None => None,
    }
}

/// Names, each followed by blanks.
pub open spec fn spaced_names(s: Seq<char>, i: int) -> (Seq<Str>, int)
    decreases s.len() - i,
{
    match name_at(s, i) {
        Some((n, e)) => {
            let k = blanks_end(s, e);
            if i < k <= s.len() {
                let (rest, j) = spaced_names(s, k);
                (seq![n] + rest, j)
            } else {
                (Seq::empty(), i)
            }
        },
        None => (Seq::empty(), i),
    }
}

/// A goal literal: `(`, its predicate, blanks, its arguments, `)` and blanks.
pub open spec fn goal_literal_at(s: Seq<char>, i: int) -> Option<((Str, Seq<Str>), int)> {
    match after_word(s, i, "("@) {
        Some(a) => match name_at(s, a) {
            Some((n, e)) => {
                let (args, k) = spaced_names(s, blanks_end(s, e));
                match after_word(s, k, ")"@) {
                    Some(g) => Some(((n, args), blanks_end(s, g))),
                    None => None,
                }
            },
            None => None,
        },
        None => None,
    }
}

/// As many goal literals as stand at `i`.
pub open spec fn goal_literals(s: Seq<char>, i: int) -> (StateModel, int)
    decreases s.len() - i,
{
    match goal_literal_at(s, i) {
        Some((f, k)) => if i < k <= s.len() {
            let (rest, j) = goal_literals(s, k);
            (seq![f] + rest, j)
        } else {
            (Seq::empty(), i)
        },
        None => (Seq::empty(), i),
    }
}

/// `(:goal [(and] <literals> ) )`, with at least one literal; the second
/// bracket closes the whole description.
pub open spec fn goal_at(s: Seq<char>, i: int) -> Option<(StateModel, int)> {
    match after_word(s, i, "(:goal"@) {
        Some(a) => {
            let b = blanks_end(s, skip_word(s, blanks_end(s, a), "(and"@));
            let (lits, k) = goal_literals(s, b);
            if lits.len() == 0 {
                None
            } else {
                match after_word(s, k, ")"@) {
                    Some(g) => match after_word(s, blanks_end(s, g), ")"@) {
                        Some(h) => Some((lits, blanks_end(s, h))),
                        None => None,
                    },
                    None => None,
                }
            }
        },
        None => None,
    }
}


/// A parameter of the task network: `?<name> - <type>` and blanks.
pub open spec fn htn_param_at(s: Seq<char>, i: int) -> Option<((Str, Str), int)> {
    match after_word(s, i, "?"@) {
        Some(a) => match name_at(s, a) {
            Some((n, e)) => match after_word(s, e, " - "@) {
                Some(f) => match name_at(s, f) {
                    Some((t, h)) => Some((("?"@ + n, t), blanks_end(s, h))),
                    None => None,
                },
                None => None,
            },
            None => None,
        },
        None => None,
    }
}

/// As many parameters as stand at `i`.
pub open spec fn htn_params_from(s: Seq<char>, i: int) -> (Seq<(Str, Str)>, int)
    decreases s.len() - i,
{
    match htn_param_at(s, i) {
        Some((p, k)) => if i < k <= s.len() {
            let (rest, j) = htn_params_from(s, k);
            (seq![p] + rest, j)
        } else {
            (Seq::empty(), i)
        },
        None => (Seq::empty(), i),
    }
}

/// `:parameters (<parameters>)` after blanks.
pub open spec fn htn_params_at(s: Seq<char>, i: int) -> Option<(Seq<(Str, Str)>, int)> {
    match after_word(s, blanks_end(s, i), ":parameters "@) {
        Some(a) => match after_word(s, a, "("@) {
            Some(b) => {
                let (ps, k) = htn_params_from(s, blanks_end(s, b));
                match after_word(s, k, ")"@) {
                    Some(g) => Some((ps, blanks_end(s, g))),
                    None => None,
                }
            },
            None => None,
        },
        None => None,
    }
}

/// An argument of a subtask: a name, with a `?` kept in front where one
/// stands there, and blanks.
pub open spec fn subtask_arg_at(s: Seq<char>, i: int) -> Option<(Str, int)> {
    let q = skip_word(s, i, "?"@);
    match name_at(s, q) {
        Some((n, e)) => Some((if q != i { "?"@ + n } else { n }, blanks_end(s, e))),
        None => None,
    }
}

/// As many subtask arguments as stand at `i`.
pub open spec fn subtask_args(s: Seq<char>, i: int) -> (Seq<Str>, int)
    decreases s.len() - i,
{
    match subtask_arg_at(s, i) {
        Some((a, k)) => if i < k <= s.len() {
            let (rest, j) = subtask_args(s, k);
            (seq![a] + rest, j)
        } else {
            (Seq::empty(), i)
        },
        None => (Seq::empty(), i),
    }
}

/// The alias `No alias` of a subtask written without one.
pub open spec fn no_alias() -> Str {
    "No alias"@
}

/// A subtask: `(<alias> (<task> <args>) )` or `(<task> <args>)`, giving
/// the task, its alias and its arguments.
pub open spec fn subtask_at(s: Seq<char>, i: int) -> Option<((Str, Str, Seq<Str>), int)> {
    match after_word(s, i, "("@) {
        Some(a) => match name_at(s, a) {
            Some((w1, e)) => {
                let b = blanks_end(s, e);
                let (inner, c) = match after_word(s, b, "("@) {
                    Some(c0) => match name_at(s, c0) {
                        Some((w2, f)) => (Some(w2), f),
                        None => (None, b),
                    },
                    None => (None, b),
                };
                let (args, k) = subtask_args(s, blanks_end(s, c));
                match after_word(s, k, ")"@) {
                    Some(g) => {
                        let h = blanks_end(s, skip_word(s, blanks_end(s, g), ")"@));
                        match inner {
                            Some(w2) => Some(((w2, w1, args), h)),
                            None => Some(((w1, no_alias(), args), h)),
                        }
                    },
                    None => None,
                }
            },
            None => None,
        },
        None => None,
    }
}

/// As many subtasks as stand at `i`.
pub open spec fn subtasks_from(s: Seq<char>, i: int) -> (Seq<(Str, Str, Seq<Str>)>, int)
    decreases s.len() - i,
{
    match subtask_at(s, i) {
        Some((t, k)) => if i < k <= s.len() {
            let (rest, j) = subtasks_from(s, k);
            (seq![t] + rest, j)
        } else {
            (Seq::empty(), i)
        },
        None => (Seq::empty(), i),
    }
}

/// The position after one of the words that open the subtasks.
pub open spec fn subtasks_word_end(s: Seq<char>, i: int) -> Option<int> {
    match after_word(s, i, ":subtasks"@) {
        Some(a) => Some(a),
        None => match after_word(s, i, ":tasks"@) {
            Some(a) => Some(a),
            None => match after_word(s, i, ":ordered-subtasks"@) {
                Some(a) => Some(a),
                None => after_word(s, i, ":ordered-tasks"@),
            },
        },
    }
}

/// `:subtasks [(and] <subtasks> [)]` (or one of the other opening words), after blanks.
pub open spec fn subtasks_at(s: Seq<char>, i: int) -> Option<(Seq<(Str, Str, Seq<Str>)>, int)> {
    match subtasks_word_end(s, blanks_end(s, i)) {
        Some(a) => {
            let b = blanks_end(s, skip_word(s, blanks_end(s, a), "(and"@));
            let (subs, k) = subtasks_from(s, b);
            Some((subs, blanks_end(s, skip_word(s, k, ")"@))))
        },
        None => None,
    }
}

/// `<` or `>` at `i`, with the position after it.
pub open spec fn order_sign_at(s: Seq<char>, i: int) -> Option<(Str, int)> {
    match after_word(s, i, "<"@) {
        Some(a) => Some(("<"@, a)),
        None => match after_word(s, i, ">"@) {
            Some(a) => Some((">"@, a)),
            None => None,
        },
    }
}

/// An ordering constraint: `(< a b)` or `(> a b)` and blanks.
pub open spec fn order_at(s: Seq<char>, i: int) -> Option<((Str, Str, Str), int)> {
    match after_word(s, i, "("@) {
        Some(a) => match order_sign_at(s, a) {
            Some((op, b)) => match after_word(s, b, " "@) {
                Some(c) => match alnum_at(s, c) {
                    Some((x, e)) => match after_word(s, e, " "@) {
                        Some(f) => match alnum_at(s, f) {
                            Some((y, g)) => match after_word(s, g, ")"@) {
                                Some(h) => Some(((op, x, y), blanks_end(s, h))),
                                None => None,
                            },
                            None => None,
                        },
                        None => None,
                    },
                    None => None,
                },
                None => None,
            },
            None => None,
        },
        None => None,
    }
}

/// As many ordering constraints as stand at `i`.
pub open spec fn orders_from(s: Seq<char>, i: int) -> (Seq<(Str, Str, Str)>, int)
    decreases s.len() - i,
{
    match order_at(s, i) {
        Some((o, k)) => if i < k <= s.len() {
            let (rest, j) = orders_from(s, k);
            (seq![o] + rest, j)
        } else {
            (Seq::empty(), i)
        },
        None => (Seq::empty(), i),
    }
}

/// `:ordering (and <constraints> [)]`, or `:ordering ( )`.
pub open spec fn ordering_at(s: Seq<char>, i: int) -> Option<(Seq<(Str, Str, Str)>, int)> {
    let opened = match after_word(s, i, ":ordering (and"@) {
        Some(a) => Some(a),
        None => after_word(s, i, ":ordering ( )"@),
    };
    match opened {
        Some(a) => {
            let (os, k) = orders_from(s, blanks_end(s, a));
            Some((os, blanks_end(s, skip_word(s, k, ")"@))))
        },
        None => None,
    }
}


/// `(:htn [parameters] <subtasks> [ordering] [:constraints ( )] [)]`, after
/// blanks: the initial task network, its subtasks in the order the ordering
/// gives. `None` where that order cannot be followed to the end.
pub open spec fn htn_at(s: Seq<char>, i: int) -> Option<(HtnModel, int)> {
    match after_word(s, blanks_end(s, i), "(:htn"@) {
        Some(a) => {
            let b = blanks_end(s, a);
            let (params, c) = match htn_params_at(s, b) {
                Some((p, c0)) => (p, c0),
                None => (Seq::empty(), b),
            };
            match subtasks_at(s, c) {
                Some((subs, d)) => {
                    let (ordering, e) = match ordering_at(s, d) {
                        Some((o, e0)) => (Some(o), e0),
                        None => (None, d),
                    };
                    let f = skip_word(s, e, ":constraints ( )"@);
                    let g = blanks_end(s, skip_word(s, blanks_end(s, f), ")"@));
                    match ordered_subtasks(subs, ordering) {
                        Some(sorted) => Some((HtnModel { parameters: params, subtasks: sorted }, g)),
                        None => None,
                    }
                },
                None => None,
            }
        },
        None => None,
    }
}

/// A problem description: text up to `(define`, then its name, its domain,
/// its objects (none where the part is absent), its task network, its
/// initial state and, where it stands there, its goal. What follows is not read.
pub open spec fn problem_at(s: Seq<char>) -> Option<ProblemModel> {
    match find_from(s, 0, "(define"@) {
        Some(d) => match problem_name_at(s, d) {
            Some((name, a)) => match header_at(s, a, "(:domain"@) {
                Some((domain, b)) => {
                    let (objects, c) = match objects_at(s, b) {
                        Some((o, c0)) => (o, c0),
                        None => (Seq::empty(), b),
                    };
                    match htn_at(s, c) {
                        Some((htn, e)) => match init_at(s, e) {
                            Some((state, f)) => Some(ProblemModel {
                                name,
                                domain,
                                objects,
                                htn,
                                state,
                                goal: match goal_at(s, f) {
                                    Some((g, _)) => Some(g),
                                    None => None,
                                },
                            }),
                            None => None,
                        },
                        None => None,
                    }
                },
                None => None,
            },
            None => None,
        },
        None => None,
    }
}

/// The problem that an HDDL text describes, comments taken out.
pub open spec fn hddl_problem(text: Seq<char>) -> Option<ProblemModel> {
    match uncommented(text) {
        Some(t) => problem_at(t),
        None => None,
    }
}

// ----------------------------------------------------------------------------
// The reader
// ----------------------------------------------------------------------------

/// The first position at or after `i` where the text `t` stands.
pub fn find_word(s: &Vec<char>, i: usize, t: &str) -> (res: Option<usize>)
    requires
        i <= s.len(),
    ensures
        match res {
            Some(k) => find_from(s@, i as int, t@) == Some(k as int) && k <= s.len(),
            None => find_from(s@, i as int, t@) is None,
        },
{
    let mut k = i;
    loop
        invariant
            i <= k <= s.len(),
            find_from(s@, k as int, t@) == find_from(s@, i as int, t@),
        decreases s.len() - k,
    {
        if expect(s, k, t).is_some() {
            return Some(k);
        }
        if k == s.len() {
            return None;
        }
        k = k + 1;
    }
}

fn read_header(s: &Vec<char>, i: usize, word: &str) -> (res: Option<(String, usize)>)
    requires
        i <= s.len(),
    ensures
        match res {
            Some((n, j)) => header_at(s@, i as int, word@) == Some((n@, j as int)) && j <= s.len(),
            None => header_at(s@, i as int, word@) is None,
        },
{
    let a = expect(s, i, word)?;
    let (n, e) = read_name(s, skip_blanks(s, a))?;
    let g = expect(s, skip_blanks(s, e), ")")?;
    Some((n, skip_blanks(s, g)))
}

fn read_problem_name(s: &Vec<char>, i: usize) -> (res: Option<(String, usize)>)
    requires
        i <= s.len(),
    ensures
        match res {
            Some((n, j)) => problem_name_at(s@, i as int) == Some((n@, j as int)) && j <= s.len(),
            None => problem_name_at(s@, i as int) is None,
        },
{
    let a = expect(s, i, "(define")?;
    read_header(s, skip_blanks(s, a), "(problem")
}

fn read_object_names(s: &Vec<char>, i: usize) -> (res: (Vec<String>, usize))
    requires
        i <= s.len(),
    ensures
        object_names(s@, i as int) == (res.0.deep_view(), res.1 as int),
        i <= res.1 <= s.len(),
{
    let mut names: Vec<String> = Vec::new();
    let mut k = i;
    loop
        invariant
            i <= k <= s.len(),
            ({
                let (rest, j) = object_names(s@, k as int);
                object_names(s@, i as int) == (names.deep_view() + rest, j)
            }),
        decreases s.len() - k,
    {
        if expect(s, k, "-").is_some() {
            assert(names.deep_view() + Seq::<Str>::empty() =~= names.deep_view());
            return (names, k);
        }
        match read_name(s, k) {
            Some((n, e)) => {
                let m = skip_blanks(s, e);
                let ghost old_names = names.deep_view();
                names.push(n);
                assert(names.deep_view() =~= old_names.push(n@));
                let ghost (rest, j) = object_names(s@, m as int);
                assert(old_names + (seq![n@] + rest) =~= names.deep_view() + rest);
                k = m;
            },
            None => {
                assert(names.deep_view() + Seq::<Str>::empty() =~= names.deep_view());
                return (names, k);
            },
        }
    }
}

fn read_object_group(s: &Vec<char>, i: usize) -> (res: Option<(Vec<Object>, usize)>)
    requires
        i <= s.len(),
    ensures
        match res {
            Some((g, j)) => object_group_at(s@, i as int) == Some((g.deep_view(), j as int))
                && i < j <= s.len(),
            None => object_group_at(s@, i as int) is None,
        },
{
    let (names, k) = read_object_names(s, i);
    if names.len() == 0 {
        return None;
    }
    let a = expect(s, k, "- ")?;
    let (t, e) = read_name(s, a)?;
    let mut objs: Vec<Object> = Vec::new();
    let mut m: usize = 0;
    while m < names.len()
        invariant
            m <= names.len(),
            objs.deep_view() == typed_objects(names.deep_view(), t@).take(m as int),
        decreases names.len() - m,
    {
        let ghost before = objs.deep_view();
        let nm = names[m].clone();
        let tt = t.clone();
        let none: Vec<String> = Vec::new();
        assert(none.deep_view() =~= Seq::<Str>::empty());
        assert(names.deep_view()[m as int] == names@[m as int]@);
        objs.push((nm, tt, none));
        assert(objs.deep_view() =~= typed_objects(names.deep_view(), t@).take(m + 1)) by {
            assert(objs.deep_view() =~= before.push((names.deep_view()[m as int], t@, Seq::<Str>::empty())));
        }
        m = m + 1;
    }
    assert(typed_objects(names.deep_view(), t@).take(names.len() as int) =~= typed_objects(names.deep_view(), t@));
    Some((objs, skip_blanks(s, e)))
}

fn read_object_groups(s: &Vec<char>, i: usize) -> (res: (Vec<Object>, usize))
    requires
        i <= s.len(),
    ensures
        object_groups(s@, i as int) == (res.0.deep_view(), res.1 as int),
        i <= res.1 <= s.len(),
{
    let mut objs: Vec<Object> = Vec::new();
    let mut k = i;
    loop
        invariant
            i <= k <= s.len(),
            ({
                let (rest, j) = object_groups(s@, k as int);
                object_groups(s@, i as int) == (objs.deep_view() + rest, j)
            }),
        decreases s.len() - k,
    {
        match read_object_group(s, k) {
            Some((mut g, m)) => {
                let ghost old_objs = objs.deep_view();
                let ghost gv = g.deep_view();
                objs.append(&mut g);
                assert(objs.deep_view() =~= old_objs + gv);
                let ghost (rest, j) = object_groups(s@, m as int);
                assert(old_objs + (gv + rest) =~= objs.deep_view() + rest);
                k = m;
            },
            None => {
                assert(objs.deep_view() + Seq::<(Str, Str, Seq<Str>)>::empty() =~= objs.deep_view());
                return (objs, k);
            },
        }
    }
}

fn read_objects(s: &Vec<char>, i: usize) -> (res: Option<(Vec<Object>, usize)>)
    requires
        i <= s.len(),
    ensures
        match res {
            Some((o, j)) => objects_at(s@, i as int) == Some((o.deep_view(), j as int)) && j <= s.len(),
            None => objects_at(s@, i as int) is None,
        },
{
    let a = expect(s, i, "(:objects")?;
    let b = skip_blanks(s, a);
    let (objs, k) = read_object_groups(s, b);
    if k == b {
        return None;
    }
    let g = expect(s, k, ")")?;
    Some((objs, skip_blanks(s, g)))
}

fn read_fact_words(s: &Vec<char>, i: usize) -> (res: (Vec<String>, usize))
    requires
        i <= s.len(),
    ensures
        fact_words(s@, i as int) == (res.0.deep_view(), res.1 as int),
        i <= res.1 <= s.len(),
{
    let mut words: Vec<String> = Vec::new();
    let mut k = i;
    loop
        invariant
            i <= k <= s.len(),
            ({
                let (rest, j) = fact_words(s@, k as int);
                fact_words(s@, i as int) == (words.deep_view() + rest, j)
            }),
        decreases s.len() - k,
    {
        match read_name(s, k) {
            Some((n, e)) => {
                let m = match expect(s, e, " ") {
                    Some(m) => m,
                    None => e,
                };
                let ghost old_words = words.deep_view();
                words.push(n);
                assert(words.deep_view() =~= old_words.push(n@));
                let ghost (rest, j) = fact_words(s@, m as int);
                assert(old_words + (seq![n@] + rest) =~= words.deep_view() + rest);
                k = m;
            },
            None => {
                assert(words.deep_view() + Seq::<Str>::empty() =~= words.deep_view());
                return (words, k);
            },
        }
    }
}

fn read_fact(s: &Vec<char>, i: usize) -> (res: Option<((String, Vec<String>), usize)>)
    requires
        i <= s.len(),
    ensures
        match res {
            Some((f, j)) => fact_at(s@, i as int) == Some((f.deep_view(), j as int)) && i < j <= s.len(),
            None => fact_at(s@, i as int) is None,
        },
{
    proof {
        reveal_strlit("(");
    }
    let a = expect(s, i, "(")?;
    let (mut ws, k) = read_fact_words(s, a);
    if ws.len() == 0 {
        return None;
    }
    let g = expect(s, k, ")")?;
    let ghost wv = ws.deep_view();
    let name = ws.remove(0);
    assert(ws.deep_view() =~= wv.drop_first());
    Some(((name, ws), skip_blanks(s, g)))
}

fn read_facts(s: &Vec<char>, i: usize) -> (res: (Vec<(String, Vec<String>)>, usize))
    requires
        i <= s.len(),
    ensures
        facts_from(s@, i as int) == (res.0.deep_view(), res.1 as int),
        i <= res.1 <= s.len(),
{
    let mut facts: Vec<(String, Vec<String>)> = Vec::new();
    let mut k = i;
    loop
        invariant
            i <= k <= s.len(),
            ({
                let (rest, j) = facts_from(s@, k as int);
                facts_from(s@, i as int) == (facts.deep_view() + rest, j)
            }),
        decreases s.len() - k,
    {
        match read_fact(s, k) {
            Some((f, m)) => {
                let ghost old_facts = facts.deep_view();
                let ghost fv = f.deep_view();
                facts.push(f);
                assert(facts.deep_view() =~= old_facts.push(fv));
                let ghost (rest, j) = facts_from(s@, m as int);
                assert(old_facts + (seq![fv] + rest) =~= facts.deep_view() + rest);
                k = m;
            },
            None => {
                assert(facts.deep_view() + Seq::<(Str, Seq<Str>)>::empty() =~= facts.deep_view());
                return (facts, k);
            },
        }
    }
}

pub fn skip_opt(s: &Vec<char>, k: usize, t: &str) -> (res: usize)
    requires
        k <= s.len(),
    ensures
        res == skip_word(s@, k as int, t@),
        k <= res <= s.len(),
{
    match expect(s, k, t) {
        Some(m) => m,
        None => k,
    }
}

fn read_init(s: &Vec<char>, i: usize) -> (res: Option<(Vec<(String, Vec<String>)>, usize)>)
    requires
        i <= s.len(),
    ensures
        match res {
            Some((f, j)) => init_at(s@, i as int) == Some((f.deep_view(), j as int)) && j <= s.len(),
            None => init_at(s@, i as int) is None,
        },
{
    let a = expect(s, i, "(:init")?;
    let (facts, k) = read_facts(s, skip_blanks(s, a));
    if facts.len() == 0 {
        return None;
    }
    let e = skip_opt(s, k, ")");
    Some((facts, skip_blanks(s, e)))
}

pub fn read_spaced_names(s: &Vec<char>, i: usize) -> (res: (Vec<String>, usize))
    requires
        i <= s.len(),
    ensures
        spaced_names(s@, i as int) == (res.0.deep_view(), res.1 as int),
        i <= res.1 <= s.len(),
{
    let mut names: Vec<String> = Vec::new();
    let mut k = i;
    loop
        invariant
            i <= k <= s.len(),
            ({
                let (rest, j) = spaced_names(s@, k as int);
                spaced_names(s@, i as int) == (names.deep_view() + rest, j)
            }),
        decreases s.len() - k,
    {
        match read_name(s, k) {
            Some((n, e)) => {
                let m = skip_blanks(s, e);
                let ghost old_names = names.deep_view();
                names.push(n);
                assert(names.deep_view() =~= old_names.push(n@));
                let ghost (rest, j) = spaced_names(s@, m as int);
                assert(old_names + (seq![n@] + rest) =~= names.deep_view() + rest);
                k = m;
            },
            None => {
                assert(names.deep_view() + Seq::<Str>::empty() =~= names.deep_view());
                return (names, k);
            },
        }
    }
}

fn read_goal_literal(s: &Vec<char>, i: usize) -> (res: Option<((String, Vec<String>), usize)>)
    requires
        i <= s.len(),
    ensures
        match res {
            Some((f, j)) => goal_literal_at(s@, i as int) == Some((f.deep_view(), j as int)) && i < j <= s.len(),
            None => goal_literal_at(s@, i as int) is None,
        },
{
    let a = expect(s, i, "(")?;
    let (n, e) = read_name(s, a)?;
    let (args, k) = read_spaced_names(s, skip_blanks(s, e));
    let g = expect(s, k, ")")?;
    Some(((n, args), skip_blanks(s, g)))
}

fn read_goal_literals(s: &Vec<char>, i: usize) -> (res: (Vec<(String, Vec<String>)>, usize))
    requires
        i <= s.len(),
    ensures
        goal_literals(s@, i as int) == (res.0.deep_view(), res.1 as int),
        i <= res.1 <= s.len(),
{
    let mut lits: Vec<(String, Vec<String>)> = Vec::new();
    let mut k = i;
    loop
        invariant
            i <= k <= s.len(),
            ({
                let (rest, j) = goal_literals(s@, k as int);
                goal_literals(s@, i as int) == (lits.deep_view() + rest, j)
            }),
        decreases s.len() - k,
    {
        match read_goal_literal(s, k) {
            Some((f, m)) => {
                let ghost old_lits = lits.deep_view();
                let ghost fv = f.deep_view();
                lits.push(f);
                assert(lits.deep_view() =~= old_lits.push(fv));
                let ghost (rest, j) = goal_literals(s@, m as int);
                assert(old_lits + (seq![fv] + rest) =~= lits.deep_view() + rest);
                k = m;
            },
            None => {
                assert(lits.deep_view() + Seq::<(Str, Seq<Str>)>::empty() =~= lits.deep_view());
                return (lits, k);
            },
        }
    }
}

fn read_goal(s: &Vec<char>, i: usize) -> (res: Option<(Vec<(String, Vec<String>)>, usize)>)
    requires
        i <= s.len(),
    ensures
        match res {
            Some((f, j)) => goal_at(s@, i as int) == Some((f.deep_view(), j as int)) && j <= s.len(),
            None => goal_at(s@, i as int) is None,
        },
{
    let a = expect(s, i, "(:goal")?;
    let b = skip_blanks(s, skip_opt(s, skip_blanks(s, a), "(and"));
    let (lits, k) = read_goal_literals(s, b);
    if lits.len() == 0 {
        return None;
    }
    let g = expect(s, k, ")")?;
    let h = expect(s, skip_blanks(s, g), ")")?;
    Some((lits, skip_blanks(s, h)))
}


fn read_htn_param(s: &Vec<char>, i: usize) -> (res: Option<((String, String), usize)>)
    requires
        i <= s.len(),
    ensures
        match res {
            Some((p, j)) => htn_param_at(s@, i as int) == Some((p.deep_view(), j as int)) && i < j <= s.len(),
            None => htn_param_at(s@, i as int) is None,
        },
{
    let a = expect(s, i, "?")?;
    let (n, e) = read_name(s, a)?;
    let f = expect(s, e, " - ")?;
    let (t, h) = read_name(s, f)?;
    let mut var = String::from_str("?");
    var.append(n.as_str());
    Some(((var, t), skip_blanks(s, h)))
}

fn read_htn_params_from(s: &Vec<char>, i: usize) -> (res: (Vec<(String, String)>, usize))
    requires
        i <= s.len(),
    ensures
        htn_params_from(s@, i as int) == (res.0.deep_view(), res.1 as int),
        i <= res.1 <= s.len(),
{
    let mut out: Vec<(String, String)> = Vec::new();
    let mut k = i;
    loop
        invariant
            i <= k <= s.len(),
            ({
                let (rest, j) = htn_params_from(s@, k as int);
                htn_params_from(s@, i as int) == (out.deep_view() + rest, j)
            }),
        decreases s.len() - k,
    {
        match read_htn_param(s, k) {
            Some((x, m)) => {
                let ghost old_out = out.deep_view();
                let ghost xv = x.deep_view();
                out.push(x);
                assert(out.deep_view() =~= old_out.push(xv));
                let ghost (rest, j) = htn_params_from(s@, m as int);
                assert(old_out + (seq![xv] + rest) =~= out.deep_view() + rest);
                k = m;
            },
            None => {
                assert(out.deep_view() + Seq::<(Str, Str)>::empty() =~= out.deep_view());
                return (out, k);
            },
        }
    }
}

fn read_htn_params(s: &Vec<char>, i: usize) -> (res: Option<(Vec<(String, String)>, usize)>)
    requires
        i <= s.len(),
    ensures
        match res {
            Some((p, j)) => htn_params_at(s@, i as int) == Some((p.deep_view(), j as int)) && j <= s.len(),
            None => htn_params_at(s@, i as int) is None,
        },
{
    let a = expect(s, skip_blanks(s, i), ":parameters ")?;
    let b = expect(s, a, "(")?;
    let (ps, k) = read_htn_params_from(s, skip_blanks(s, b));
    let g = expect(s, k, ")")?;
    Some((ps, skip_blanks(s, g)))
}

fn read_subtask_arg(s: &Vec<char>, i: usize) -> (res: Option<(String, usize)>)
    requires
        i <= s.len(),
    ensures
        match res {
            Some((x, j)) => subtask_arg_at(s@, i as int) == Some((x@, j as int)) && i < j <= s.len(),
            None => subtask_arg_at(s@, i as int) is None,
        },
{
    let q = skip_opt(s, i, "?");
    let (n, e) = read_name(s, q)?;
    if q != i {
        let mut var = String::from_str("?");
        var.append(n.as_str());
        Some((var, skip_blanks(s, e)))
    } else {
        Some((n, skip_blanks(s, e)))
    }
}

fn read_subtask_args(s: &Vec<char>, i: usize) -> (res: (Vec<String>, usize))
    requires
        i <= s.len(),
    ensures
        subtask_args(s@, i as int) == (res.0.deep_view(), res.1 as int),
        i <= res.1 <= s.len(),
{
    let mut out: Vec<String> = Vec::new();
    let mut k = i;
    loop
        invariant
            i <= k <= s.len(),
            ({
                let (rest, j) = subtask_args(s@, k as int);
                subtask_args(s@, i as int) == (out.deep_view() + rest, j)
            }),
        decreases s.len() - k,
    {
        match read_subtask_arg(s, k) {
            Some((x, m)) => {
                let ghost old_out = out.deep_view();
                let ghost xv = x@;
                out.push(x);
                assert(out.deep_view() =~= old_out.push(xv));
                let ghost (rest, j) = subtask_args(s@, m as int);
                assert(old_out + (seq![xv] + rest) =~= out.deep_view() + rest);
                k = m;
            },
            None => {
                assert(out.deep_view() + Seq::<Str>::empty() =~= out.deep_view());
                return (out, k);
            },
        }
    }
}

fn read_subtask(s: &Vec<char>, i: usize) -> (res: Option<((String, String, Vec<String>), usize)>)
    requires
        i <= s.len(),
    ensures
        match res {
            Some((t, j)) => subtask_at(s@, i as int) == Some((t.deep_view(), j as int)) && i < j <= s.len(),
            None => subtask_at(s@, i as int) is None,
        },
{
    let a = expect(s, i, "(")?;
    let (w1, e) = read_name(s, a)?;
    let b = skip_blanks(s, e);
    let (inner, c) = match expect(s, b, "(") {
        Some(c0) => match read_name(s, c0) {
            Some((w2, f)) => (Some(w2), f),
            None => (None, b),
        },
        None => (None, b),
    };
    let (args, k) = read_subtask_args(s, skip_blanks(s, c));
    let g = expect(s, k, ")")?;
    let h = skip_blanks(s, skip_opt(s, skip_blanks(s, g), ")"));
    match inner {
        Some(w2) => Some(((w2, w1, args), h)),
        None => Some(((w1, String::from_str("No alias"), args), h)),
    }
}

fn read_subtasks_from(s: &Vec<char>, i: usize) -> (res: (Vec<(String, String, Vec<String>)>, usize))
    requires
        i <= s.len(),
    ensures
        subtasks_from(s@, i as int) == (res.0.deep_view(), res.1 as int),
        i <= res.1 <= s.len(),
{
    let mut out: Vec<(String, String, Vec<String>)> = Vec::new();
    let mut k = i;
    loop
        invariant
            i <= k <= s.len(),
            ({
                let (rest, j) = subtasks_from(s@, k as int);
                subtasks_from(s@, i as int) == (out.deep_view() + rest, j)
            }),
        decreases s.len() - k,
    {
        match read_subtask(s, k) {
            Some((x, m)) => {
                let ghost old_out = out.deep_view();
                let ghost xv = x.deep_view();
                out.push(x);
                assert(out.deep_view() =~= old_out.push(xv));
                let ghost (rest, j) = subtasks_from(s@, m as int);
                assert(old_out + (seq![xv] + rest) =~= out.deep_view() + rest);
                k = m;
            },
            None => {
                assert(out.deep_view() + Seq::<(Str, Str, Seq<Str>)>::empty() =~= out.deep_view());
                return (out, k);
            },
        }
    }
}

fn read_subtasks(s: &Vec<char>, i: usize) -> (res: Option<(Vec<(String, String, Vec<String>)>, usize)>)
    requires
        i <= s.len(),
    ensures
        match res {
            Some((t, j)) => subtasks_at(s@, i as int) == Some((t.deep_view(), j as int)) && j <= s.len(),
            None => subtasks_at(s@, i as int) is None,
        },
{
    let i0 = skip_blanks(s, i);
    let a = match expect(s, i0, ":subtasks") {
        Some(a) => a,
        None => match expect(s, i0, ":tasks") {
            Some(a) => a,
            None => match expect(s, i0, ":ordered-subtasks") {
                Some(a) => a,
                None => expect(s, i0, ":ordered-tasks")?,
            },
        },
    };
    let b = skip_blanks(s, skip_opt(s, skip_blanks(s, a), "(and"));
    let (subs, k) = read_subtasks_from(s, b);
    Some((subs, skip_blanks(s, skip_opt(s, k, ")"))))
}

fn read_order(s: &Vec<char>, i: usize) -> (res: Option<((String, String, String), usize)>)
    requires
        i <= s.len(),
    ensures
        match res {
            Some((o, j)) => order_at(s@, i as int) == Some((o.deep_view(), j as int)) && i < j <= s.len(),
            None => order_at(s@, i as int) is None,
        },
{
    let a = expect(s, i, "(")?;
    let (op, b) = match expect(s, a, "<") {
        Some(b) => (String::from_str("<"), b),
        None => (String::from_str(">"), expect(s, a, ">")?),
    };
    let c = expect(s, b, " ")?;
    let (x, e) = read_alnum(s, c)?;
    let f = expect(s, e, " ")?;
    let (y, g) = read_alnum(s, f)?;
    let h = expect(s, g, ")")?;
    Some(((op, x, y), skip_blanks(s, h)))
}

fn read_orders_from(s: &Vec<char>, i: usize) -> (res: (Vec<(String, String, String)>, usize))
    requires
        i <= s.len(),
    ensures
        orders_from(s@, i as int) == (res.0.deep_view(), res.1 as int),
        i <= res.1 <= s.len(),
{
    let mut out: Vec<(String, String, String)> = Vec::new();
    let mut k = i;
    loop
        invariant
            i <= k <= s.len(),
            ({
                let (rest, j) = orders_from(s@, k as int);
                orders_from(s@, i as int) == (out.deep_view() + rest, j)
            }),
        decreases s.len() - k,
    {
        match read_order(s, k) {
            Some((x, m)) => {
                let ghost old_out = out.deep_view();
                let ghost xv = x.deep_view();
                out.push(x);
                assert(out.deep_view() =~= old_out.push(xv));
                let ghost (rest, j) = orders_from(s@, m as int);
                assert(old_out + (seq![xv] + rest) =~= out.deep_view() + rest);
                k = m;
            },
            None => {
                assert(out.deep_view() + Seq::<(Str, Str, Str)>::empty() =~= out.deep_view());
                return (out, k);
            },
        }
    }
}

fn read_ordering(s: &Vec<char>, i: usize) -> (res: Option<(Vec<(String, String, String)>, usize)>)
    requires
        i <= s.len(),
    ensures
        match res {
            Some((o, j)) => ordering_at(s@, i as int) == Some((o.deep_view(), j as int)) && j <= s.len(),
            None => ordering_at(s@, i as int) is None,
        },
{
    let a = match expect(s, i, ":ordering (and") {
        Some(a) => a,
        None => expect(s, i, ":ordering ( )")?,
    };
    let (os, k) = read_orders_from(s, skip_blanks(s, a));
    Some((os, skip_blanks(s, skip_opt(s, k, ")"))))
}


fn read_htn(s: &Vec<char>, i: usize) -> (res: Option<(Htn, usize)>)
    requires
        i <= s.len(),
    ensures
        match res {
            Some((h, j)) => htn_at(s@, i as int) == Some((h@, j as int)) && j <= s.len(),
            None => htn_at(s@, i as int) is None,
        },
{
    let a = expect(s, skip_blanks(s, i), "(:htn")?;
    let b = skip_blanks(s, a);
    let (params, c) = match read_htn_params(s, b) {
        Some((p, c0)) => (p, c0),
        None => (Vec::new(), b),
    };
    proof {
        if htn_params_at(s@, b as int) is None {
            assert(params.deep_view() =~= Seq::<(Str, Str)>::empty());
        }
    }
    let (subs, d) = read_subtasks(s, c)?;
    let (ordering, e) = match read_ordering(s, d) {
        Some((o, e0)) => (Some(o), e0),
        None => (None, d),
    };
    let f = skip_opt(s, e, ":constraints ( )");
    let g = skip_blanks(s, skip_opt(s, skip_blanks(s, f), ")"));
    let sorted = order_subtasks(subs, &ordering)?;
    Some((Htn { parameters: params, subtasks: sorted }, g))
}

/// The problem that a comment-free HDDL text describes; `None` where the text
/// does not follow the grammar.
pub fn problem_parser(s: &Vec<char>) -> (res: Option<Problem>)
    ensures
        match res {
            Some(p) => problem_at(s@) == Some(p@),
            None => problem_at(s@) is None,
        },
{
    let d = find_word(s, 0, "(define")?;
    let (name, a) = read_problem_name(s, d)?;
    let (domain, b) = read_header(s, a, "(:domain")?;
    let (objects, c) = match read_objects(s, b) {
        Some((o, c0)) => (o, c0),
        None => (Vec::new(), b),
    };
    proof {
        if objects_at(s@, b as int) is None {
            assert(objects.deep_view() =~= Seq::<(Str, Str, Seq<Str>)>::empty());
        }
    }
    let (htn, e) = read_htn(s, c)?;
    let (state, f) = read_init(s, e)?;
    let goal = match read_goal(s, f) {
        Some((g, _)) => Some(g),
        None => None,
    };
    Some(Problem { name, domain, objects, htn, state, goal })
}

/// Why an HDDL text could not be read.
pub enum ReadError {
    /// A comment (from `;`) runs to the end of the text with no line feed.
    UnclosedComment,
    /// The text does not follow the grammar of a problem description.
    Malformed,
}

/// The problem that an HDDL text describes.
pub fn read_problem(text: &str) -> (res: Result<Problem, ReadError>)
    ensures
        match res {
            Ok(p) => hddl_problem(text@) == Some(p@),
            Err(e) => hddl_problem(text@) is None && (e is UnclosedComment <==> uncommented(text@) is None),
        },
{
    let chars = chars_of(text);
    let clean = match strip_comments(&chars) {
        Some(c) => c,
        None => {
            return Err(ReadError::UnclosedComment);
        },
    };
    match problem_parser(&clean) {
        Some(p) => Ok(p),
        None => Err(ReadError::Malformed),
    }
}

} // verus!
