//! A whole HDDL domain description, and the reading of a problem and its domain.
use vstd::prelude::*;
use crate::datastructures::domain::{Str, Domain, DomainModel, Method, MethodModel, Argument,
    Precondition, PreconditionModel, Task, TaskModel, clone_strings, clone_opt_preconditions};
use crate::datastructures::problem::{Problem, clone_htn_subtasks};
use crate::hddl::lexing::{word_at, uncommented, chars_of, strip_comments, blanks_end, name_at, after_word, expect, skip_blanks, read_name};
use crate::hddl::problem_reader::{find_from, find_word, hddl_problem, ReadError};
use crate::hddl::domain_reader::{types_at, constants_at, predicates_at, tasks_at, actions_at, max_count,
    get_domain_types, get_domain_constants, get_domain_predicates, get_domain_tasks, get_domain_actions};
use crate::hddl::method_reader::{MethodTextModel, MethodText, method_texts, read_method_texts};
use crate::hddl::subtask_order::{ordered_subtasks, order_subtasks};
use crate::toolbox::domain_ops::{has_key, table_filed};
use crate::toolbox::methods::{all_arities_fit, all_arities_fit_exec, resolved_all, update_method_subtasks};

verus! {

/// `(define`, blanks, `(domain <name>)`, blanks, everything up to the next
/// `)`, that `)` and blanks: the domain's name.
pub open spec fn domain_name_at(s: Seq<char>, i: int) -> Option<(Str, int)> {
    match after_word(s, i, "(define"@) {
        Some(a) => match after_word(s, blanks_end(s, a), "(domain "@) {
            Some(b) => match name_at(s, b) {
                Some((n, e)) => match after_word(s, e, ")"@) {
                    Some(f) => match find_from(s, blanks_end(s, f), ")"@) {
                        Some(p) => Some((n, blanks_end(s, p + 1))),
                        None => None,
                    },
                    None => None,
                },
                None => None,
            },
            None => None,
        },
        None => None,
    }
}

/// Whether the subtasks were opened by a word that orders them.
pub open spec fn opens_ordered(w: Str) -> bool {
    w == ":ordered-subtasks"@ || w == ":ordered-tasks"@
}

/// The preconditions with each variable constraint added: an equality (2)
/// or an inequality (3) of its two variables.
pub open spec fn with_constraints(pre: Option<Seq<PreconditionModel>>, cs: Seq<(bool, Str, Str)>) -> Seq<PreconditionModel> {
    let base = match pre {
        Some(p) => p,
        None => Seq::empty(),
    };
    base + cs.map_values(|c: (bool, Str, Str)| (if c.0 { 2i32 } else { 3i32 }, "no pred"@, seq![c.1, c.2], None::<((Str, Str), Seq<(bool, Str, Seq<Str>)>)>))
}

/// The constraints where each compares two variables.
pub open spec fn complete_constraints(cs: Seq<Option<(bool, Str, Str)>>) -> Option<Seq<(bool, Str, Str)>>
    decreases cs.len(),
{
    if cs.len() == 0 {
        Some(Seq::empty())
    } else {
        match (complete_constraints(cs.drop_last()), cs.last()) {
            (Some(r), Some(c)) => Some(r.push(c)),
            _ => None,
        }
    }
}

/// The first `n` methods as written, each with its subtasks in order, and
/// whether one of them ordered its subtasks (from then on every method is
/// marked ordered). `None` where a method's subtasks cannot be ordered or
/// a constraint compares fewer than two variables.
pub open spec fn methods_upto(texts: Seq<MethodTextModel>, n: int) -> Option<(Seq<(MethodModel, Seq<(Str, Str, Seq<Str>)>)>, bool)>
    decreases n,
{
    if n <= 0 {
        Some((Seq::empty(), false))
    } else {
        match methods_upto(texts, n - 1) {
            Some((acc, flag)) => {
                let t = texts[n - 1];
                let flag2 = match t.4 {
                    Some((_, w)) => flag || t.5 is Some || opens_ordered(w),
                    None => flag,
                };
                let subs = match t.4 {
                    Some((ss, _)) => match t.5 {
                        Some(o) => ordered_subtasks(ss, Some(o)),
                        None => Some(ss),
                    },
                    None => Some(Seq::empty()),
                };
                let pre = match t.6 {
                    Some(cs) => match complete_constraints(cs) {
                        Some(full) => Some(Some(with_constraints(t.3, full))),
                        None => None,
                    },
                    None => Some(t.3),
                };
                match (subs, pre) {
                    (Some(ss), Some(p)) => Some((acc.push((MethodModel {
                        name: t.0,
                        parameters: t.1,
                        task: t.2,
                        precondition: p,
                        subtasks: Seq::empty(),
                        constraints: None,
                        ordering: flag2,
                        id: (100 + n - 1) as usize,
                    }, ss)), flag2)),
                    _ => None,
                }
            },
            None => None,
        }
    }
}

/// The methods whose task is `name`, in order.
pub open spec fn methods_of_task(ms: Seq<MethodModel>, name: Str) -> Seq<MethodModel> {
    ms.filter(files_under(name))
}

/// Whether a method is a method of the task `name`.
pub open spec fn files_under(name: Str) -> spec_fn(MethodModel) -> bool {
    |m: MethodModel| m.task.0 == name
}

/// The method table after the first `n` tasks: one entry per task name, in
/// the order the names first appear, with the methods of that task.
pub open spec fn table_upto(tasks: Seq<TaskModel>, ms: Seq<MethodModel>, n: int) -> Seq<(Str, Seq<MethodModel>)>
    decreases n,
{
    if n <= 0 {
        Seq::empty()
    } else {
        let t = table_upto(tasks, ms, n - 1);
        let name = tasks[n - 1].name;
        if has_key(t, name) {
            t
        } else {
            t.push((name, methods_of_task(ms, name)))
        }
    }
}

/// A domain description: its name, optional types and constants, its
/// predicates, tasks, methods and actions, and the closing `)`. What follows
/// is not read. `None` where the text does not follow the grammar, where a
/// method cannot be built, or where a subtask names fewer arguments than
/// its callee has parameters.
pub open spec fn domain_at(s: Seq<char>) -> Option<DomainModel> {
    match domain_name_at(s, 0) {
        Some((name, a)) => {
            let (types, b) = match types_at(s, a) {
                Some((t, b0)) => (t, b0),
                None => (Seq::empty(), a),
            };
            let (constants, c) = match constants_at(s, b) {
                Some((x, c0)) => (Some(x), c0),
                None => (None, b),
            };
            match predicates_at(s, c) {
                Some((predicates, d)) => match tasks_at(s, d) {
                    Some((tasks, e)) => {
                        let (texts, f) = method_texts(s, e);
                        if texts.len() == 0 || texts.len() > max_count() {
                            None
                        } else {
                            match actions_at(s, f) {
                                Some((actions, g)) => if after_word(s, g, ")"@) is Some {
                                    match methods_upto(texts, texts.len() as int) {
                                        Some((ms, _)) => if all_arities_fit(ms, tasks, actions) {
                                            let fixed = ms.map_values(|m: (MethodModel, Seq<(Str, Str, Seq<Str>)>)|
                                                MethodModel { subtasks: resolved_all(m.1, tasks, actions), ..m.0 });
                                            Some(DomainModel {
                                                name,
                                                tasks,
                                                methods: table_upto(tasks, fixed, tasks.len() as int),
                                                actions,
                                                types,
                                                constants,
                                                predicates,
                                            })
                                        } else {
                                            None
                                        },
                                        None => None,
                                    }
                                } else {
                                    None
                                },
                                None => None,
                            }
                        }
                    },
                    None => None,
                },
                None => None,
            }
        },
        None => None,
    }
}

/// The domain that an HDDL text describes, comments taken out.
pub open spec fn hddl_domain(text: Seq<char>) -> Option<DomainModel> {
    match uncommented(text) {
        Some(t) => domain_at(t),
        None => None,
    }
}

/// Every method table built from tasks and methods files each method under its own task.
pub proof fn lemma_table_upto_filed(tasks: Seq<TaskModel>, ms: Seq<MethodModel>, n: int)
    ensures
        table_filed(table_upto(tasks, ms, n)),
    decreases n,
{
    if n > 0 {
        lemma_table_upto_filed(tasks, ms, n - 1);
        let t = table_upto(tasks, ms, n - 1);
        let name = tasks[n - 1].name;
        if !has_key(t, name) {
            let f = methods_of_task(ms, name);
            assert forall|j: int| 0 <= j < f.len() implies (#[trigger] f[j]).task.0 == name by {
                ms.lemma_filter_pred(files_under(name), j);
            }
            let t2 = t.push((name, f));
            assert forall|i: int, j: int| 0 <= i < t2.len() && 0 <= j < t2[i].1.len() implies (#[trigger] t2[i].1[j]).task.0 == t2[i].0 by {
                if i < t.len() {
                    assert(t2[i] == t[i]);
                }
            }
        }
    }
}

/// A domain read from a text files each method under its own task.
pub proof fn law_read_domain_is_filed(text: Seq<char>)
    ensures
        hddl_domain(text) matches Some(d) ==> table_filed(d.methods),
{
    assert forall|tasks: Seq<TaskModel>, ms: Seq<MethodModel>, n: int| #[trigger] table_filed(table_upto(tasks, ms, n)) by {
        lemma_table_upto_filed(tasks, ms, n);
    }
}

// ----------------------------------------------------------------------------
// The readers
// ----------------------------------------------------------------------------

fn read_domain_name(s: &Vec<char>, i: usize) -> (res: Option<(String, usize)>)
    requires
        i <= s.len(),
    ensures
        match res {
            Some((n, j)) => domain_name_at(s@, i as int) == Some((n@, j as int)) && j <= s.len(),
            None => domain_name_at(s@, i as int) is None,
        },
{
    proof {
        reveal_strlit(")");
    }
    let a = expect(s, i, "(define")?;
    let b = expect(s, skip_blanks(s, a), "(domain ")?;
    let (n, e) = read_name(s, b)?;
    let f = expect(s, e, ")")?;
    let g = skip_blanks(s, f);
    let p = find_word(s, g, ")")?;
    proof {
        lemma_found(s@, g as int, ")"@);
    }
    Some((n, skip_blanks(s, p + 1)))
}

proof fn lemma_found(s: Seq<char>, i: int, t: Seq<char>)
    ensures
        find_from(s, i, t) matches Some(p) ==> word_at(s, p, t) && i <= p,
    decreases s.len() - i,
{
    if 0 <= i <= s.len() && word_at(s, i, t) {
    } else if 0 <= i < s.len() {
        lemma_found(s, i + 1, t);
    }
}

fn clone_orders(v: &Vec<(String, String, String)>) -> (res: Vec<(String, String, String)>)
    ensures
        res.deep_view() == v.deep_view(),
{
    let mut out: Vec<(String, String, String)> = Vec::new();
    let mut m: usize = 0;
    while m < v.len()
        invariant
            m <= v.len(),
            out.deep_view() == v.deep_view().take(m as int),
        decreases v.len() - m,
    {
        let ghost before = out.deep_view();
        assert(v.deep_view()[m as int] == v@[m as int].deep_view());
        out.push((v[m].0.clone(), v[m].1.clone(), v[m].2.clone()));
        assert(out.deep_view() =~= v.deep_view().take(m + 1)) by {
            assert(out.deep_view() =~= before.push(v.deep_view()[m as int]));
        }
        m = m + 1;
    }
    assert(v.deep_view().take(v.len() as int) =~= v.deep_view());
    out
}

fn constrained_preconditions(pre: &Option<Vec<Precondition>>, cs: &Vec<Option<(bool, String, String)>>) -> (res: Option<Option<Vec<Precondition>>>)
    ensures
        res.deep_view() == match complete_constraints(cs.deep_view()) {
            Some(full) => Some(Some(with_constraints(pre.deep_view(), full))),
            None => None,
        },
{
    let ghost cv = cs.deep_view();
    let mut out: Vec<Precondition> = match pre {
        Some(p) => crate::datastructures::domain::clone_preconditions(p),
        None => Vec::new(),
    };
    let ghost base = out.deep_view();
    assert(base == match pre.deep_view() { Some(p) => p, None => Seq::<PreconditionModel>::empty() });
    let ghost mut full: Seq<(bool, Str, Str)> = Seq::empty();
    let mut m: usize = 0;
    while m < cs.len()
        invariant
            m <= cs.len(),
            cv == cs.deep_view(),
            complete_constraints(cv.take(m as int)) == Some(full),
            out.deep_view() == base + full.map_values(|c: (bool, Str, Str)| (if c.0 { 2i32 } else { 3i32 }, "no pred"@, seq![c.1, c.2], None::<((Str, Str), Seq<(bool, Str, Seq<Str>)>)>)),
        decreases cs.len() - m,
    {
        assert(cv.take(m + 1).drop_last() =~= cv.take(m as int));
        assert(cv[m as int] == cs@[m as int].deep_view());
        match &cs[m] {
            Some(c) => {
                let kind: i32 = if c.0 { 2 } else { 3 };
                let args = vec![c.1.clone(), c.2.clone()];
                assert(args.deep_view() =~= seq![c.1@, c.2@]);
                let ghost old_out = out.deep_view();
                out.push((kind, String::from_str("no pred"), args, None));
                proof {
                    let cm = (c.0, c.1@, c.2@);
                    full = full.push(cm);
                    assert(out.deep_view() =~= base + full.map_values(|c: (bool, Str, Str)| (if c.0 { 2i32 } else { 3i32 }, "no pred"@, seq![c.1, c.2], None::<((Str, Str), Seq<(bool, Str, Seq<Str>)>)>))) by {
                        assert(old_out.push(out.deep_view()[out.len() - 1]) =~= out.deep_view());
                    }
                }
            },
            None => {
                proof {
                    lemma_incomplete_stays(cv, m as int + 1);
                }
                return None;
            },
        }
        m = m + 1;
    }
    assert(cv.take(cs.len() as int) =~= cv);
    Some(Some(out))
}

proof fn lemma_incomplete_stays(cs: Seq<Option<(bool, Str, Str)>>, n: int)
    requires
        0 < n <= cs.len(),
        complete_constraints(cs.take(n)) is None,
    ensures
        complete_constraints(cs) is None,
    decreases cs.len() - n,
{
    if n < cs.len() {
        assert(cs.take(n + 1).drop_last() =~= cs.take(n));
        lemma_incomplete_stays(cs, n + 1);
    } else {
        assert(cs.take(n) =~= cs);
    }
}

proof fn lemma_methods_none_stays(texts: Seq<MethodTextModel>, m: int, n: int)
    requires
        0 <= m <= n,
        methods_upto(texts, m) is None,
    ensures
        methods_upto(texts, n) is None,
    decreases n - m,
{
    if m < n {
        lemma_methods_none_stays(texts, m, n - 1);
    }
}

fn build_methods(texts: &Vec<MethodText>) -> (res: Option<Vec<(Method, Vec<(String, String, Vec<String>)>)>>)
    requires
        texts.len() <= max_count(),
    ensures
        match res {
            Some(ms) => methods_upto(texts.deep_view(), texts.len() as int) matches Some((m, _)) && m == ms.deep_view(),
            None => methods_upto(texts.deep_view(), texts.len() as int) is None,
        },
{
    let ghost tv = texts.deep_view();
    let ordered_subtasks_word = String::from_str(":ordered-subtasks");
    let ordered_tasks_word = String::from_str(":ordered-tasks");
    let mut out: Vec<(Method, Vec<(String, String, Vec<String>)>)> = Vec::new();
    let mut flag = false;
    let mut n: usize = 0;
    while n < texts.len()
        invariant
            n <= texts.len() <= max_count(),
            tv == texts.deep_view(),
            ordered_subtasks_word@ == ":ordered-subtasks"@,
            ordered_tasks_word@ == ":ordered-tasks"@,
            methods_upto(tv, n as int) == Some((out.deep_view(), flag)),
        decreases texts.len() - n,
    {
        assert(tv[n as int] == texts@[n as int].deep_view());
        let t = &texts[n];
        let flag2 = match &t.4 {
            Some((_, w)) => flag || t.5.is_some() || *w == ordered_subtasks_word || *w == ordered_tasks_word,
            None => flag,
        };
        let subs = match &t.4 {
            Some((ss, _)) => match &t.5 {
                Some(o) => order_subtasks(clone_htn_subtasks(ss), &Some(clone_orders(o))),
                None => Some(clone_htn_subtasks(ss)),
            },
            None => Some(Vec::new()),
        };
        proof {
            if t.4 is None {
                assert(subs.deep_view() == Some(Seq::<(Str, Str, Seq<Str>)>::empty()));
            }
        }
        let pre = match &t.6 {
            Some(cs) => constrained_preconditions(&t.3, cs),
            None => Some(clone_opt_preconditions(&t.3)),
        };
        match (subs, pre) {
            (Some(ss), Some(p)) => {
                let params = t.1.clone();
                assert(params.deep_view() =~= t.1.deep_view());
                let no_subtasks: Vec<(crate::datastructures::domain::MethodSubtask, Vec<Argument>)> = Vec::new();
                let method = Method {
                    name: t.0.clone(),
                    parameters: params,
                    task: (t.2.0.clone(), clone_strings(&t.2.1)),
                    precondition: p,
                    subtasks: no_subtasks,
                    constraints: None,
                    ordering: flag2,
                    id: 100 + n,
                };
                assert(method@.subtasks =~= Seq::empty());
                let ghost old_out = out.deep_view();
                let ghost entry = (method@, ss.deep_view());
                out.push((method, ss));
                assert(out.deep_view() =~= old_out.push(entry));
            },
            _ => {
                proof {
                    lemma_methods_none_stays(tv, n as int + 1, tv.len() as int);
                }
                return None;
            },
        }
        flag = flag2;
        n = n + 1;
    }
    Some(out)
}


fn methods_of_task_exec(ms: &Vec<Method>, name: &String) -> (res: Vec<Method>)
    ensures
        res.deep_view() == methods_of_task(ms.deep_view(), name@),
{
    let ghost mv = ms.deep_view();
    let mut out: Vec<Method> = Vec::new();
    let mut m: usize = 0;
    while m < ms.len()
        invariant
            m <= ms.len(),
            mv == ms.deep_view(),
            out.deep_view() == mv.take(m as int).filter(files_under(name@)),
        decreases ms.len() - m,
    {
        proof {
            reveal(Seq::filter);
            assert(mv.take(m + 1).drop_last() =~= mv.take(m as int));
            assert(mv.take(m + 1).last() == mv[m as int]);
        }
        assert(mv[m as int] == ms@[m as int]@);
        if ms[m].task.0 == *name {
            let ghost old_out = out.deep_view();
            out.push(ms[m].clone());
            assert(out.deep_view() =~= old_out.push(mv[m as int]));
        }
        m = m + 1;
    }
    assert(mv.take(ms.len() as int) =~= mv);
    out
}

fn build_table(tasks: &Vec<Task>, ms: &Vec<Method>) -> (res: Vec<(String, Vec<Method>)>)
    ensures
        res.deep_view() == table_upto(tasks.deep_view(), ms.deep_view(), tasks.len() as int),
{
    let ghost tv = tasks.deep_view();
    let mut table: Vec<(String, Vec<Method>)> = Vec::new();
    let mut n: usize = 0;
    while n < tasks.len()
        invariant
            n <= tasks.len(),
            tv == tasks.deep_view(),
            table.deep_view() == table_upto(tv, ms.deep_view(), n as int),
        decreases tasks.len() - n,
    {
        assert(tv[n as int] == tasks@[n as int]@);
        let name = &tasks[n].name;
        if !crate::readiness::has_key_exec(&table, name) {
            let entry = (name.clone(), methods_of_task_exec(ms, name));
            let ghost old_table = table.deep_view();
            let ghost ev = entry.deep_view();
            table.push(entry);
            assert(table.deep_view() =~= old_table.push(ev));
        }
        n = n + 1;
    }
    table
}

/// The domain that a comment-free HDDL text describes; `None` where
/// [`domain_at`] gives none.
pub fn domain_parser(s: &Vec<char>) -> (res: Option<Domain>)
    ensures
        match res {
            Some(d) => domain_at(s@) == Some(d@),
            None => domain_at(s@) is None,
        },
{
    let (name, a) = read_domain_name(s, 0)?;
    let (types, b) = match get_domain_types(s, a) {
        Some((t, b0)) => (t, b0),
        None => (Vec::new(), a),
    };
    proof {
        if types_at(s@, a as int) is None {
            assert(types.deep_view() =~= Seq::<(Str, Str)>::empty());
        }
    }
    let (constants, c) = match get_domain_constants(s, b) {
        Some((x, c0)) => (Some(x), c0),
        None => (None, b),
    };
    let (predicates, d) = get_domain_predicates(s, c)?;
    let (tasks, e) = get_domain_tasks(s, d)?;
    let (texts, f) = read_method_texts(s, e);
    if texts.len() == 0 || texts.len() > 1_000_000_000 {
        return None;
    }
    let (actions, g) = get_domain_actions(s, f)?;
    if expect(s, g, ")").is_none() {
        return None;
    }
    let methods = build_methods(&texts)?;
    if !all_arities_fit_exec(&methods, &tasks, &actions) {
        return None;
    }
    let fixed = update_method_subtasks(methods, &actions, &tasks);
    let table = build_table(&tasks, &fixed);
    Some(Domain { name, tasks, methods: table, actions, types, constants, predicates })
}

/// Why a problem and its domain could not be read.
pub enum HddlError {
    /// A comment in the problem text runs to its end with no line feed.
    ProblemComment,
    /// A comment in the domain text runs to its end with no line feed.
    DomainComment,
    /// The problem text does not describe a problem; the domain text does describe a domain.
    ProblemMalformed,
    /// The domain text does not describe a domain; the problem text does describe a problem.
    DomainMalformed,
    /// Neither text describes what it should.
    BothMalformed,
}

/// The domain that an HDDL text describes.
pub fn read_domain(text: &str) -> (res: Result<Domain, ReadError>)
    ensures
        match res {
            Ok(d) => hddl_domain(text@) == Some(d@),
            Err(e) => hddl_domain(text@) is None && (e is UnclosedComment <==> uncommented(text@) is None),
        },
{
    let chars = chars_of(text);
    let clean = match strip_comments(&chars) {
        Some(c) => c,
        None => {
            return Err(ReadError::UnclosedComment);
        },
    };
    match domain_parser(&clean) {
        Some(d) => Ok(d),
        None => Err(ReadError::Malformed),
    }
}

/// The problem and the domain that two HDDL texts describe.
pub fn parse_hddl(input_problem: &str, input_domain: &str) -> (res: Result<(Problem, Domain), HddlError>)
    ensures
        match res {
            Ok((p, d)) => hddl_problem(input_problem@) == Some(p@) && hddl_domain(input_domain@) == Some(d@),
            Err(e) => match e {
                HddlError::ProblemComment => uncommented(input_problem@) is None,
                HddlError::DomainComment => uncommented(input_problem@) is Some && uncommented(input_domain@) is None,
                HddlError::ProblemMalformed => uncommented(input_problem@) is Some && uncommented(input_domain@) is Some
                    && hddl_problem(input_problem@) is None && hddl_domain(input_domain@) is Some,
                HddlError::DomainMalformed => uncommented(input_problem@) is Some && uncommented(input_domain@) is Some
                    && hddl_problem(input_problem@) is Some && hddl_domain(input_domain@) is None,
                HddlError::BothMalformed => uncommented(input_problem@) is Some && uncommented(input_domain@) is Some
                    && hddl_problem(input_problem@) is None && hddl_domain(input_domain@) is None,
            },
        },
{
    let problem_chars = chars_of(input_problem);
    let problem_clean = match strip_comments(&problem_chars) {
        Some(c) => c,
        None => {
            return Err(HddlError::ProblemComment);
        },
    };
    let domain_chars = chars_of(input_domain);
    let domain_clean = match strip_comments(&domain_chars) {
        Some(c) => c,
        None => {
            return Err(HddlError::DomainComment);
        },
    };
    let problem = crate::hddl::problem_reader::problem_parser(&problem_clean);
    let domain = domain_parser(&domain_clean);
    match (problem, domain) {
        (Some(p), Some(d)) => Ok((p, d)),
        (None, Some(_)) => Err(HddlError::ProblemMalformed),
        (Some(_), None) => Err(HddlError::DomainMalformed),
        (None, None) => Err(HddlError::BothMalformed),
    }
}

} // verus!
