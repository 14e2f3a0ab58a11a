//! The grammar of the preconditions of a method, and their reader.
use vstd::prelude::*;
use crate::datastructures::domain::{Str, Precondition, PreconditionModel, clone_precondition};
use crate::hddl::lexing::{blanks_end, name_at, word_at, after_word, expect, skip_blanks, read_name};
use crate::hddl::problem_reader::{skip_word, spaced_names, skip_opt, read_spaced_names};

verus! {

/// The model of a universally quantified condition: the bound variable with
/// its type, and the literals that must hold for each object of that type.
pub type ForallModel = ((Str, Str), Seq<(bool, Str, Seq<Str>)>);

/// A universally quantified condition in the text.
pub type Forall = ((String, String), Vec<(bool, String, Vec<String>)>);

/// A literal under `forall`: `[(not ](<predicate> <args>)[)]` and blanks;
/// its flag is false where it is negated. It has at least one argument.
pub open spec fn forall_literal_at(s: Seq<char>, i: int) -> Option<((bool, Str, Seq<Str>), int)> {
    let negated = word_at(s, i, "(not "@);
    let p = skip_word(s, i, "(not "@);
    match after_word(s, p, "("@) {
        Some(a) => match name_at(s, a) {
            Some((n, b)) => {
                let (args, d) = spaced_names(s, blanks_end(s, b));
                if args.len() == 0 {
                    None
                } else {
                    match after_word(s, d, ")"@) {
                        Some(e) => Some(((!negated, n, args), blanks_end(s, skip_word(s, e, ")"@)))),
                        None => None,
                    }
                }
            },
            None => None,
        },
        None => None,
    }
}

/// As many literals under `forall` as stand at `i`.
pub open spec fn forall_literals(s: Seq<char>, i: int) -> (Seq<(bool, Str, Seq<Str>)>, int)
    decreases s.len() - i,
{
    match forall_literal_at(s, i) {
        Some((l, k)) => if i < k <= s.len() {
            let (rest, j) = forall_literals(s, k);
            (seq![l] + rest, j)
        } else {
            (Seq::empty(), i)
        },
        None => (Seq::empty(), i),
    }
}

/// `forall (<var> - <type>) <literals>)`, with at least one literal.
pub open spec fn forall_at(s: Seq<char>, i: int) -> Option<(ForallModel, int)> {
    match after_word(s, i, "forall"@) {
        Some(a) => match after_word(s, blanks_end(s, a), "("@) {
            Some(c) => match name_at(s, c) {
                Some((v, d)) => match after_word(s, d, " - "@) {
                    Some(e) => match name_at(s, e) {
                        Some((t, f)) => match after_word(s, f, ")"@) {
                            Some(g) => {
                                let (lits, k) = forall_literals(s, blanks_end(s, g));
                                if lits.len() == 0 {
                                    None
                                } else {
                                    match after_word(s, k, ")"@) {
                                        Some(m) => Some((((v, t), lits), blanks_end(s, m))),
                                        None => None,
                                    }
                                }
                            },
                            None => None,
                        },
                        None => None,
                    },
                    None => None,
                },
                None => None,
            },
            None => None,
        },
        None => None,
    }
}

/// What one written condition becomes: `None` where it names no predicate
/// though it must (`=` or `not` with nothing after it), `Some(None)` where it
/// is left out (no name at all), else the precondition.
pub open spec fn condition_of(
    fa: Option<ForallModel>,
    negated: bool,
    equality: bool,
    name: Option<Str>,
    args: Seq<Str>,
) -> Option<Option<PreconditionModel>> {
    if let Some(f) = fa {
        Some(Some((4i32, "forall"@, Seq::empty(), Some(f))))
    } else if !negated && equality {
        match name {
            Some(n) => Some(Some((2i32, "="@, args.push(n), None))),
            None => None,
        }
    } else if negated && equality {
        match name {
            Some(n) => Some(Some((3i32, "!="@, args.push(n), None))),
            None => None,
        }
    } else if negated {
        match name {
            Some(n) => Some(Some((1i32, n, args, None))),
            None => None,
        }
    } else {
        match name {
            Some(n) => Some(Some((0i32, n, args, None))),
            None => Some(None),
        }
    }
}

/// One written condition: `(`, blanks, no `:`, an optional `forall`, an
/// optional `not (`, blanks, an optional `= `, an optional name, blanks,
/// names with blanks, and up to two `)` with blanks.
pub open spec fn condition_at(s: Seq<char>, i: int) -> Option<(Option<Option<PreconditionModel>>, int)> {
    match after_word(s, i, "("@) {
        Some(a0) => {
            let a = blanks_end(s, a0);
            if word_at(s, a, ":"@) {
                None
            } else {
                let (fa, p1) = match forall_at(s, a) {
                    Some((f, e)) => (Some(f), e),
                    None => (None, a),
                };
                let (negated, p2) = match after_word(s, p1, "not"@) {
                    Some(x) => match after_word(s, blanks_end(s, x), "("@) {
                        Some(z) => (true, z),
                        None => (false, p1),
                    },
                    None => (false, p1),
                };
                let p3 = blanks_end(s, p2);
                let equality = word_at(s, p3, "= "@);
                let p4 = skip_word(s, p3, "= "@);
                let (name, p5) = match name_at(s, p4) {
                    Some((n, e)) => (Some(n), e),
                    None => (None, p4),
                };
                let (args, p7) = spaced_names(s, blanks_end(s, p5));
                let p8 = blanks_end(s, skip_word(s, p7, ")"@));
                let p9 = blanks_end(s, skip_word(s, p8, ")"@));
                Some((condition_of(fa, negated, equality, name, args), p9))
            }
        },
        None => None,
    }
}

/// As many written conditions as stand at `i`.
pub open spec fn conditions_from(s: Seq<char>, i: int) -> (Seq<Option<Option<PreconditionModel>>>, int)
    decreases s.len() - i,
{
    match condition_at(s, i) {
        Some((c, k)) => if i < k <= s.len() {
            let (rest, j) = conditions_from(s, k);
            (seq![c] + rest, j)
        } else {
            (Seq::empty(), i)
        },
        None => (Seq::empty(), i),
    }
}

/// The preconditions that the first `n` written conditions give, or `None`
/// where one of them names no predicate though it must.
pub open spec fn gathered(cs: Seq<Option<Option<PreconditionModel>>>, n: int) -> Option<Seq<PreconditionModel>>
    decreases n,
{
    if n <= 0 {
        Some(Seq::empty())
    } else {
        match gathered(cs, n - 1) {
            Some(acc) => match cs[n - 1] {
                Some(Some(p)) => Some(acc.push(p)),
                Some(None) => Some(acc),
                None => None,
            },
            None => None,
        }
    }
}

/// `:precondition [(and] <conditions> [)]` with at least one condition: the
/// preconditions of a method and the position after them.
pub open spec fn method_preconditions_at(s: Seq<char>, i: int) -> Option<(Seq<PreconditionModel>, int)> {
    match after_word(s, i, ":precondition"@) {
        Some(a) => {
            let b = blanks_end(s, skip_word(s, blanks_end(s, a), "(and"@));
            let (cs, k) = conditions_from(s, b);
            if cs.len() == 0 {
                None
            } else {
                match gathered(cs, cs.len() as int) {
                    Some(ps) => Some((ps, blanks_end(s, skip_word(s, k, ")"@)))),
                    None => None,
                }
            }
        },
        None => None,
    }
}

/// Once a written condition fails, every longer prefix fails too.
pub proof fn lemma_gathered_stays_none(cs: Seq<Option<Option<PreconditionModel>>>, m: int, n: int)
    requires
        gathered(cs, m) is None,
        0 <= m <= n,
    ensures
        gathered(cs, n) is None,
    decreases n - m,
{
    if m < n {
        lemma_gathered_stays_none(cs, m, n - 1);
    }
}

fn read_forall_literal(s: &Vec<char>, i: usize) -> (res: Option<((bool, String, Vec<String>), usize)>)
    requires
        i <= s.len(),
    ensures
        match res {
            Some((l, j)) => forall_literal_at(s@, i as int) == Some((l.deep_view(), j as int)) && i < j <= s.len(),
            None => forall_literal_at(s@, i as int) is None,
        },
{
    proof {
        reveal_strlit("(");
    }
    let negated = expect(s, i, "(not ").is_some();
    let p = skip_opt(s, i, "(not ");
    let a = expect(s, p, "(")?;
    let (n, b) = read_name(s, a)?;
    let (args, d) = read_spaced_names(s, skip_blanks(s, b));
    if args.len() == 0 {
        return None;
    }
    let e = expect(s, d, ")")?;
    Some(((!negated, n, args), skip_blanks(s, skip_opt(s, e, ")"))))
}

fn read_forall_literals(s: &Vec<char>, i: usize) -> (res: (Vec<(bool, String, Vec<String>)>, usize))
    requires
        i <= s.len(),
    ensures
        forall_literals(s@, i as int) == (res.0.deep_view(), res.1 as int),
        i <= res.1 <= s.len(),
{
    let mut out: Vec<(bool, String, Vec<String>)> = Vec::new();
    let mut k = i;
    loop
        invariant
            i <= k <= s.len(),
            ({
                let (rest, j) = forall_literals(s@, k as int);
                forall_literals(s@, i as int) == (out.deep_view() + rest, j)
            }),
        decreases s.len() - k,
    {
        match read_forall_literal(s, k) {
            Some((x, m)) => {
                let ghost old_out = out.deep_view();
                let ghost xv = x.deep_view();
                out.push(x);
                assert(out.deep_view() =~= old_out.push(xv));
                let ghost (rest, j) = forall_literals(s@, m as int);
                assert(old_out + (seq![xv] + rest) =~= out.deep_view() + rest);
                k = m;
            },
            None => {
                assert(out.deep_view() + Seq::<(bool, Str, Seq<Str>)>::empty() =~= out.deep_view());
                return (out, k);
            },
        }
    }
}

/// `forall (<var> - <type>) <literals>)` at `i`, and the position after it.
pub fn get_forall(s: &Vec<char>, i: usize) -> (res: Option<(Forall, usize)>)
    requires
        i <= s.len(),
    ensures
        match res {
            Some((f, j)) => forall_at(s@, i as int) == Some((f.deep_view(), j as int)) && i < j <= s.len(),
            None => forall_at(s@, i as int) is None,
        },
{
    let a = expect(s, i, "forall")?;
    let c = expect(s, skip_blanks(s, a), "(")?;
    let (v, d) = read_name(s, c)?;
    let e = expect(s, d, " - ")?;
    let (t, f) = read_name(s, e)?;
    let g = expect(s, f, ")")?;
    let (lits, k) = read_forall_literals(s, skip_blanks(s, g));
    if lits.len() == 0 {
        return None;
    }
    let m = expect(s, k, ")")?;
    Some((((v, t), lits), skip_blanks(s, m)))
}

fn condition_of_exec(
    fa: Option<Forall>,
    negated: bool,
    equality: bool,
    name: Option<String>,
    args: Vec<String>,
) -> (res: Option<Option<Precondition>>)
    ensures
        res.deep_view() == condition_of(fa.deep_view(), negated, equality, name.deep_view(), args.deep_view()),
{
    let mut args = args;
    if let Some(f) = fa {
        Some(Some((4i32, String::from_str("forall"), Vec::new(), Some(f))))
    } else if !negated && equality {
        match name {
            Some(n) => {
                let ghost av = args.deep_view();
                args.push(n);
                assert(args.deep_view() =~= av.push(n@));
                Some(Some((2i32, String::from_str("="), args, None)))
            },
            None => None,
        }
    } else if negated && equality {
        match name {
            Some(n) => {
                let ghost av = args.deep_view();
                args.push(n);
                assert(args.deep_view() =~= av.push(n@));
                Some(Some((3i32, String::from_str("!="), args, None)))
            },
            None => None,
        }
    } else if negated {
        match name {
            Some(n) => Some(Some((1i32, n, args, None))),
            None => None,
        }
    } else {
        match name {
            Some(n) => Some(Some((0i32, n, args, None))),
            None => Some(None),
        }
    }
}

fn read_condition(s: &Vec<char>, i: usize) -> (res: Option<(Option<Option<Precondition>>, usize)>)
    requires
        i <= s.len(),
    ensures
        match res {
            Some((c, j)) => condition_at(s@, i as int) == Some((c.deep_view(), j as int)) && i < j <= s.len(),
            None => condition_at(s@, i as int) is None,
        },
{
    proof {
        reveal_strlit("(");
    }
    let a0 = expect(s, i, "(")?;
    let a = skip_blanks(s, a0);
    if expect(s, a, ":").is_some() {
        return None;
    }
    let (fa, p1) = match get_forall(s, a) {
        Some((f, e)) => (Some(f), e),
        None => (None, a),
    };
    let (negated, p2) = match expect(s, p1, "not") {
        Some(x) => match expect(s, skip_blanks(s, x), "(") {
            Some(z) => (true, z),
            None => (false, p1),
        },
        None => (false, p1),
    };
    let p3 = skip_blanks(s, p2);
    let equality = expect(s, p3, "= ").is_some();
    let p4 = skip_opt(s, p3, "= ");
    let (name, p5) = match read_name(s, p4) {
        Some((n, e)) => (Some(n), e),
        None => (None, p4),
    };
    let (args, p7) = read_spaced_names(s, skip_blanks(s, p5));
    let p8 = skip_blanks(s, skip_opt(s, p7, ")"));
    let p9 = skip_blanks(s, skip_opt(s, p8, ")"));
    Some((condition_of_exec(fa, negated, equality, name, args), p9))
}

fn read_conditions(s: &Vec<char>, i: usize) -> (res: (Vec<Option<Option<Precondition>>>, usize))
    requires
        i <= s.len(),
    ensures
        conditions_from(s@, i as int) == (res.0.deep_view(), res.1 as int),
        i <= res.1 <= s.len(),
{
    let mut out: Vec<Option<Option<Precondition>>> = Vec::new();
    let mut k = i;
    loop
        invariant
            i <= k <= s.len(),
            ({
                let (rest, j) = conditions_from(s@, k as int);
                conditions_from(s@, i as int) == (out.deep_view() + rest, j)
            }),
        decreases s.len() - k,
    {
        match read_condition(s, k) {
            Some((x, m)) => {
                let ghost old_out = out.deep_view();
                let ghost xv = x.deep_view();
                out.push(x);
                assert(out.deep_view() =~= old_out.push(xv));
                let ghost (rest, j) = conditions_from(s@, m as int);
                assert(old_out + (seq![xv] + rest) =~= out.deep_view() + rest);
                k = m;
            },
            None => {
                assert(out.deep_view() + Seq::<Option<Option<PreconditionModel>>>::empty() =~= out.deep_view());
                return (out, k);
            },
        }
    }
}

/// The preconditions of a method written at `i`, and the position after them;
/// `None` where they do not follow the grammar, or where a condition names
/// no predicate though it must.
pub fn get_method_preconditions(s: &Vec<char>, i: usize) -> (res: Option<(Vec<Precondition>, usize)>)
    requires
        i <= s.len(),
    ensures
        match res {
            Some((ps, j)) => method_preconditions_at(s@, i as int) == Some((ps.deep_view(), j as int))
                && i <= j <= s.len(),
            None => method_preconditions_at(s@, i as int) is None,
        },
{
    let a = expect(s, i, ":precondition")?;
    let b = skip_blanks(s, skip_opt(s, skip_blanks(s, a), "(and"));
    let (cs, k) = read_conditions(s, b);
    if cs.len() == 0 {
        return None;
    }
    let ghost cv = cs.deep_view();
    let mut out: Vec<Precondition> = Vec::new();
    let mut m: usize = 0;
    while m < cs.len()
        invariant
            m <= cs.len(),
            cv == cs.deep_view(),
            gathered(cv, m as int) == Some(out.deep_view()),
        decreases cs.len() - m,
    {
        assert(cv[m as int] == cs@[m as int].deep_view());
        match &cs[m] {
            Some(Some(p)) => {
                let ghost ov = out.deep_view();
                out.push(clone_precondition(p));
                assert(out.deep_view() =~= ov.push(cv[m as int]->0->0));
            },
            Some(None) => {},
            None => {
                proof {
                    lemma_gathered_stays_none(cv, m + 1, cv.len() as int);
                }
                return None;
            },
        }
        m = m + 1;
    }
    Some((out, skip_blanks(s, skip_opt(s, k, ")"))))
}

} // verus!
