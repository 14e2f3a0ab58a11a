//! A small built-in example problem: three boxes are to be opened with keys.
use vstd::prelude::*;
use crate::datastructures::domain::{Str, Argument, ArgumentModel, Predicate, PredicateModel, Task, TaskModel, Action, ActionModel, Method, MethodModel, MethodSubtask, MethodSubtaskModel, Domain, DomainModel, Precondition, Effect};
use crate::datastructures::problem::{Htn, HtnModel, Problem, ProblemModel, Object};
use crate::text::string_of;

verus! {

/// The parameter `?box_arg - box`.
pub open spec fn box_arg() -> ArgumentModel {
    ArgumentModel { name: "?box_arg"@, object_type: "box"@ }
}

/// The parameter `?key_arg - key`.
pub open spec fn key_arg() -> ArgumentModel {
    ArgumentModel { name: "?key_arg"@, object_type: "key"@ }
}

/// The action `insert_key`: a key not yet in an unopened box goes into it.
pub open spec fn example_insert_key() -> ActionModel {
    ActionModel {
        name: "insert_key"@,
        parameters: seq![key_arg(), box_arg()],
        precondition: Some(seq![(1i32, "in"@, seq!["?key_arg"@, "?box_arg"@], None::<((Str, Str), Seq<(bool, Str, Seq<Str>)>)>),
            (1i32, "open"@, seq!["?box_arg"@], None::<((Str, Str), Seq<(bool, Str, Seq<Str>)>)>)]),
        effect: Some(seq![(true, "in"@, seq!["?key_arg"@, "?box_arg"@])]),
        id: 1,
    }
}

/// The action `open_box`: an unopened box with the key in it opens, and the key comes out.
pub open spec fn example_open_box() -> ActionModel {
    ActionModel {
        name: "open_box"@,
        parameters: seq![key_arg(), box_arg()],
        precondition: Some(seq![(0i32, "in"@, seq!["?key_arg"@, "?box_arg"@], None::<((Str, Str), Seq<(bool, Str, Seq<Str>)>)>),
            (1i32, "open"@, seq!["?box_arg"@], None::<((Str, Str), Seq<(bool, Str, Seq<Str>)>)>)]),
        effect: Some(seq![(true, "open"@, seq!["?box_arg"@]), (false, "in"@, seq!["?key_arg"@, "?box_arg"@])]),
        id: 2,
    }
}

/// The task `opened_box` of a box.
pub open spec fn example_task() -> TaskModel {
    TaskModel { name: "opened_box"@, parameters: seq![box_arg()], alias: "task0"@, id: 1000 }
}

/// The method for `opened_box`: when the box is not open, insert a key, then open the box.
pub open spec fn example_method() -> MethodModel {
    MethodModel {
        name: "opened_box_method"@,
        parameters: seq![key_arg(), box_arg()],
        task: ("opened_box"@, seq!["?box_arg"@]),
        precondition: Some(seq![(1i32, "open"@, seq!["?box_arg"@], None::<((Str, Str), Seq<(bool, Str, Seq<Str>)>)>)]),
        subtasks: seq![(MethodSubtaskModel::Action(example_insert_key()), example_insert_key().parameters),
            (MethodSubtaskModel::Action(example_open_box()), example_open_box().parameters)],
        constraints: None,
        ordering: true,
        id: 10,
    }
}

/// The example problem: keys `key0`, `key1` and boxes `box0`, `box1`,
/// `box2`, nothing holding initially, and a box to open for each box.
pub open spec fn example_problem() -> ProblemModel {
    ProblemModel {
        name: "box_opener"@,
        domain: "box_opener_domain"@,
        objects: seq![("key0"@, "key"@, Seq::<Str>::empty()), ("key1"@, "key"@, Seq::<Str>::empty()),
            ("box0"@, "box"@, Seq::<Str>::empty()), ("box1"@, "box"@, Seq::<Str>::empty()), ("box2"@, "box"@, Seq::<Str>::empty())],
        htn: HtnModel {
            parameters: Seq::empty(),
            subtasks: seq![("opened_box"@, "task0"@, seq!["box0"@]), ("opened_box"@, "task0"@, seq!["box1"@]), ("opened_box"@, "task0"@, seq!["box2"@])],
        },
        state: Seq::empty(),
        goal: None,
    }
}

/// The example domain: the types `key` and `box`, the predicates `open` and
/// `in`, the task `opened_box` with its method, and the two actions.
pub open spec fn example_domain() -> DomainModel {
    DomainModel {
        name: "box_opener_domain"@,
        tasks: seq![example_task()],
        methods: seq![("opened_box"@, seq![example_method()])],
        actions: seq![example_insert_key(), example_open_box()],
        types: seq![("key"@, "object"@), ("box"@, "object"@)],
        constants: None,
        predicates: seq![PredicateModel { name: "open"@, args: seq![box_arg()] }, PredicateModel { name: "in"@, args: seq![key_arg(), box_arg()] }],
    }
}

fn arg(name: &str, object_type: &str) -> (res: Argument)
    ensures
        res@ == (ArgumentModel { name: name@, object_type: object_type@ }),
{
    Argument { name: string_of(name), object_type: string_of(object_type) }
}

fn key_and_box() -> (res: Vec<Argument>)
    ensures
        res.deep_view() == seq![key_arg(), box_arg()],
{
    let mut v: Vec<Argument> = Vec::new();
    v.push(arg("?key_arg", "key"));
    v.push(arg("?box_arg", "box"));
    assert(v.deep_view() =~= seq![key_arg(), box_arg()]);
    v
}

fn strings1(a: &str) -> (res: Vec<String>)
    ensures
        res.deep_view() == seq![a@],
{
    let mut v: Vec<String> = Vec::new();
    v.push(string_of(a));
    assert(v.deep_view() =~= seq![a@]);
    v
}

fn strings2(a: &str, b: &str) -> (res: Vec<String>)
    ensures
        res.deep_view() == seq![a@, b@],
{
    let mut v: Vec<String> = Vec::new();
    v.push(string_of(a));
    v.push(string_of(b));
    assert(v.deep_view() =~= seq![a@, b@]);
    v
}

fn literal(kind: i32, name: &str, args: Vec<String>) -> (res: Precondition)
    ensures
        res.deep_view() == (kind, name@, args.deep_view(), None::<((Str, Str), Seq<(bool, Str, Seq<Str>)>)>),
{
    (kind, string_of(name), args, None)
}

fn insert_key() -> (res: Action)
    ensures
        res@ == example_insert_key(),
{
    let mut pre: Vec<Precondition> = Vec::new();
    pre.push(literal(1, "in", strings2("?key_arg", "?box_arg")));
    pre.push(literal(1, "open", strings1("?box_arg")));
    let mut eff: Vec<Effect> = Vec::new();
    eff.push((true, string_of("in"), strings2("?key_arg", "?box_arg")));
    let res = Action { name: string_of("insert_key"), parameters: key_and_box(), precondition: Some(pre), effect: Some(eff), id: 1 };
    assert(pre.deep_view() =~= example_insert_key().precondition.unwrap());
    assert(eff.deep_view() =~= example_insert_key().effect.unwrap());
    res
}

fn open_box() -> (res: Action)
    ensures
        res@ == example_open_box(),
{
    let mut pre: Vec<Precondition> = Vec::new();
    pre.push(literal(0, "in", strings2("?key_arg", "?box_arg")));
    pre.push(literal(1, "open", strings1("?box_arg")));
    let mut eff: Vec<Effect> = Vec::new();
    eff.push((true, string_of("open"), strings1("?box_arg")));
    eff.push((false, string_of("in"), strings2("?key_arg", "?box_arg")));
    let res = Action { name: string_of("open_box"), parameters: key_and_box(), precondition: Some(pre), effect: Some(eff), id: 2 };
    assert(pre.deep_view() =~= example_open_box().precondition.unwrap());
    assert(eff.deep_view() =~= example_open_box().effect.unwrap());
    res
}

fn object(name: &str, object_type: &str) -> (res: Object)
    ensures
        res.deep_view() == (name@, object_type@, Seq::<Str>::empty()),
{
    let none: Vec<String> = Vec::new();
    assert(none.deep_view() =~= Seq::<Str>::empty());
    (string_of(name), string_of(object_type), none)
}

fn opened_box(b: &str) -> (res: (String, String, Vec<String>))
    ensures
        res.deep_view() == ("opened_box"@, "task0"@, seq![b@]),
{
    (string_of("opened_box"), string_of("task0"), strings1(b))
}

/// The built-in example problem and its domain.
pub fn create_problem() -> (res: (Problem, Domain))
    ensures
        res.0@ == example_problem(),
        res.1@ == example_domain(),
{
    let mut objects: Vec<Object> = Vec::new();
    objects.push(object("key0", "key"));
    objects.push(object("key1", "key"));
    objects.push(object("box0", "box"));
    objects.push(object("box1", "box"));
    objects.push(object("box2", "box"));
    assert(objects.deep_view() =~= example_problem().objects);
    let mut subtasks: Vec<(String, String, Vec<String>)> = Vec::new();
    subtasks.push(opened_box("box0"));
    subtasks.push(opened_box("box1"));
    subtasks.push(opened_box("box2"));
    assert(subtasks.deep_view() =~= example_problem().htn.subtasks);
    let no_params: Vec<(String, String)> = Vec::new();
    assert(no_params.deep_view() =~= Seq::<(Str, Str)>::empty());
    let state: Vec<(String, Vec<String>)> = Vec::new();
    assert(state.deep_view() =~= Seq::<(Str, Seq<Str>)>::empty());
    let problem = Problem {
        name: string_of("box_opener"),
        domain: string_of("box_opener_domain"),
        objects,
        htn: Htn { parameters: no_params, subtasks },
        state,
        goal: None,
    };

    let mut box_only: Vec<Argument> = Vec::new();
    box_only.push(arg("?box_arg", "box"));
    assert(box_only.deep_view() =~= seq![box_arg()]);
    let task = Task { name: string_of("opened_box"), parameters: box_only, alias: string_of("task0"), id: 1000 };
    let mut tasks: Vec<Task> = Vec::new();
    tasks.push(task);
    assert(tasks.deep_view() =~= seq![example_task()]);

    let action1 = insert_key();
    let action2 = open_box();
    let mut method_subtasks: Vec<(MethodSubtask, Vec<Argument>)> = Vec::new();
    method_subtasks.push((MethodSubtask::Action(action1.clone()), key_and_box()));
    method_subtasks.push((MethodSubtask::Action(action2.clone()), key_and_box()));
    assert(method_subtasks.deep_view() =~= example_method().subtasks);
    let mut method_pre: Vec<Precondition> = Vec::new();
    method_pre.push(literal(1, "open", strings1("?box_arg")));
    assert(method_pre.deep_view() =~= example_method().precondition.unwrap());
    let method = Method {
        name: string_of("opened_box_method"),
        parameters: key_and_box(),
        task: (string_of("opened_box"), strings1("?box_arg")),
        precondition: Some(method_pre),
        subtasks: method_subtasks,
        constraints: None,
        ordering: true,
        id: 10,
    };
    let mut for_task: Vec<Method> = Vec::new();
    for_task.push(method);
    assert(for_task.deep_view() =~= seq![example_method()]);
    let mut methods: Vec<(String, Vec<Method>)> = Vec::new();
    methods.push((string_of("opened_box"), for_task));
    assert(methods.deep_view() =~= example_domain().methods);
    let mut actions: Vec<Action> = Vec::new();
    actions.push(action1);
    actions.push(action2);
    assert(actions.deep_view() =~= example_domain().actions);
    let mut types: Vec<(String, String)> = Vec::new();
    types.push((string_of("key"), string_of("object")));
    types.push((string_of("box"), string_of("object")));
    assert(types.deep_view() =~= example_domain().types);
    let mut open_args: Vec<Argument> = Vec::new();
    open_args.push(arg("?box_arg", "box"));
    assert(open_args.deep_view() =~= seq![box_arg()]);
    let mut predicates: Vec<Predicate> = Vec::new();
    predicates.push(Predicate { name: string_of("open"), args: open_args });
    predicates.push(Predicate { name: string_of("in"), args: key_and_box() });
    assert(predicates.deep_view() =~= example_domain().predicates);
    let domain = Domain { name: string_of("box_opener_domain"), tasks, methods, actions, types, constants: None, predicates };
    (problem, domain)
}

} // verus!
