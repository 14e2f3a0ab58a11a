use vstd::prelude::*;

verus! {

/// A string as the contracts see it.
pub type Str = Seq<char>;

/// A precondition: its kind (0 the predicate holds, 1 it does not hold,
/// 2 the values are equal, 3 they differ, 4 a `forall`), the predicate's
/// name, its arguments, and for a `forall` the bound variable with its type
/// and the inner literals (each one positive or negated).
pub type Precondition = (i32, String, Vec<String>, Option<((String, String), Vec<(bool, String, Vec<String>)>)>);

/// The model of a [`Precondition`].
pub type PreconditionModel = (i32, Str, Seq<Str>, Option<((Str, Str), Seq<(bool, Str, Seq<Str>)>)>);

/// An effect: positive (added) or negative (deleted), the predicate's name and its arguments.
pub type Effect = (bool, String, Vec<String>);

/// The model of an [`Effect`].
pub type EffectModel = (bool, Str, Seq<Str>);

/// A typed parameter, e.g. `?b - box`.
#[derive(Debug, Hash)]
pub struct Argument {
    pub name: String,
    pub object_type: String,
}

pub struct ArgumentModel {
    pub name: Str,
    pub object_type: Str,
}

impl View for Argument {
    type V = ArgumentModel;

    open spec fn view(&self) -> ArgumentModel {
        ArgumentModel { name: self.name@, object_type: self.object_type@ }
    }
}

impl DeepView for Argument {
    type V = ArgumentModel;

    open spec fn deep_view(&self) -> ArgumentModel {
        self@
    }
}

impl Clone for Argument {
    fn clone(&self) -> (res: Self)
        ensures
            res@ == self@,
    {
        Argument { name: self.name.clone(), object_type: self.object_type.clone() }
    }
}

/// A predicate declaration of the domain.
#[derive(Debug, Hash)]
pub struct Predicate {
    pub name: String,
    pub args: Vec<Argument>,
}

pub struct PredicateModel {
    pub name: Str,
    pub args: Seq<ArgumentModel>,
}

impl View for Predicate {
    type V = PredicateModel;

    open spec fn view(&self) -> PredicateModel {
        PredicateModel { name: self.name@, args: self.args.deep_view() }
    }
}

impl DeepView for Predicate {
    type V = PredicateModel;

    open spec fn deep_view(&self) -> PredicateModel {
        self@
    }
}

impl Clone for Predicate {
    fn clone(&self) -> (res: Self)
        ensures
            res@ == self@,
    {
        let args = self.args.clone();
        assert(args.deep_view() =~= self.args.deep_view());
        Predicate { name: self.name.clone(), args }
    }
}

/// A compound (abstract) task of the domain.
#[derive(Debug, Hash)]
pub struct Task {
    pub name: String,
    pub parameters: Vec<Argument>,
    pub alias: String,
    pub id: i32,
}

pub struct TaskModel {
    pub name: Str,
    pub parameters: Seq<ArgumentModel>,
    pub alias: Str,
    pub id: i32,
}

impl View for Task {
    type V = TaskModel;

    open spec fn view(&self) -> TaskModel {
        TaskModel {
            name: self.name@,
            parameters: self.parameters.deep_view(),
            alias: self.alias@,
            id: self.id,
        }
    }
}

impl DeepView for Task {
    type V = TaskModel;

    open spec fn deep_view(&self) -> TaskModel {
        self@
    }
}

impl Clone for Task {
    fn clone(&self) -> (res: Self)
        ensures
            res@ == self@,
    {
        let parameters = self.parameters.clone();
        assert(parameters.deep_view() =~= self.parameters.deep_view());
        Task { name: self.name.clone(), parameters, alias: self.alias.clone(), id: self.id }
    }
}

/// A primitive action of the domain.
#[derive(Debug, Hash)]
pub struct Action {
    pub name: String,
    pub parameters: Vec<Argument>,
    pub precondition: Option<Vec<Precondition>>,
    pub effect: Option<Vec<Effect>>,
    pub id: i32,
}

pub struct ActionModel {
    pub name: Str,
    pub parameters: Seq<ArgumentModel>,
    pub precondition: Option<Seq<PreconditionModel>>,
    pub effect: Option<Seq<EffectModel>>,
    pub id: i32,
}

impl View for Action {
    type V = ActionModel;

    open spec fn view(&self) -> ActionModel {
        ActionModel {
            name: self.name@,
            parameters: self.parameters.deep_view(),
            precondition: self.precondition.deep_view(),
            effect: self.effect.deep_view(),
            id: self.id,
        }
    }
}

impl DeepView for Action {
    type V = ActionModel;

    open spec fn deep_view(&self) -> ActionModel {
        self@
    }
}

impl Clone for Action {
    fn clone(&self) -> (res: Self)
        ensures
            res@ == self@,
    {
        let parameters = self.parameters.clone();
        assert(parameters.deep_view() =~= self.parameters.deep_view());
        Action {
            name: self.name.clone(),
            parameters,
            precondition: clone_opt_preconditions(&self.precondition),
            effect: clone_opt_effects(&self.effect),
            id: self.id,
        }
    }
}

/// A subtask of a method: a compound task or an action, with the callee's
/// parameters renamed to the method's arguments.
#[derive(Debug, Hash)]
pub enum MethodSubtask {
    Task(Task),
    Action(Action),
}

pub enum MethodSubtaskModel {
    Task(TaskModel),
    Action(ActionModel),
}

impl View for MethodSubtask {
    type V = MethodSubtaskModel;

    open spec fn view(&self) -> MethodSubtaskModel {
        match self {
            MethodSubtask::Task(t) => MethodSubtaskModel::Task(t@),
            MethodSubtask::Action(a) => MethodSubtaskModel::Action(a@),
        }
    }
}

impl DeepView for MethodSubtask {
    type V = MethodSubtaskModel;

    open spec fn deep_view(&self) -> MethodSubtaskModel {
        self@
    }
}

impl Clone for MethodSubtask {
    fn clone(&self) -> (res: Self)
        ensures
            res@ == self@,
    {
        match self {
            MethodSubtask::Task(t) => MethodSubtask::Task(t.clone()),
            MethodSubtask::Action(a) => MethodSubtask::Action(a.clone()),
        }
    }
}

/// A method that refines a compound task into subtasks.
#[derive(Debug, Hash)]
pub struct Method {
    pub name: String,
    pub parameters: Vec<Argument>,
    pub task: (String, Vec<String>),
    pub precondition: Option<Vec<Precondition>>,
    pub subtasks: Vec<(MethodSubtask, Vec<Argument>)>,
    pub constraints: Option<Vec<(bool, String, String)>>,
    pub ordering: bool,
    pub id: usize,
}

pub struct MethodModel {
    pub name: Str,
    pub parameters: Seq<ArgumentModel>,
    pub task: (Str, Seq<Str>),
    pub precondition: Option<Seq<PreconditionModel>>,
    pub subtasks: Seq<(MethodSubtaskModel, Seq<ArgumentModel>)>,
    pub constraints: Option<Seq<(bool, Str, Str)>>,
    pub ordering: bool,
    pub id: usize,
}

impl View for Method {
    type V = MethodModel;

    open spec fn view(&self) -> MethodModel {
        MethodModel {
            name: self.name@,
            parameters: self.parameters.deep_view(),
            task: self.task.deep_view(),
            precondition: self.precondition.deep_view(),
            subtasks: self.subtasks.deep_view(),
            constraints: self.constraints.deep_view(),
            ordering: self.ordering,
            id: self.id,
        }
    }
}

impl DeepView for Method {
    type V = MethodModel;

    open spec fn deep_view(&self) -> MethodModel {
        self@
    }
}

impl Clone for Method {
    fn clone(&self) -> (res: Self)
        ensures
            res@ == self@,
    {
        let parameters = self.parameters.clone();
        assert(parameters.deep_view() =~= self.parameters.deep_view());
        Method {
            name: self.name.clone(),
            parameters,
            task: (self.task.0.clone(), clone_strings(&self.task.1)),
            precondition: clone_opt_preconditions(&self.precondition),
            subtasks: clone_method_subtasks(&self.subtasks),
            constraints: clone_opt_constraints(&self.constraints),
            ordering: self.ordering,
            id: self.id,
        }
    }
}

/// A planning domain. `methods` maps each task name to the methods that refine it.
pub struct Domain {
    pub name: String,
    pub tasks: Vec<Task>,
    pub methods: Vec<(String, Vec<Method>)>,
    pub actions: Vec<Action>,
    pub types: Vec<(String, String)>,
    pub constants: Option<Vec<(String, String)>>,
    pub predicates: Vec<Predicate>,
}

pub struct DomainModel {
    pub name: Str,
    pub tasks: Seq<TaskModel>,
    pub methods: Seq<(Str, Seq<MethodModel>)>,
    pub actions: Seq<ActionModel>,
    pub types: Seq<(Str, Str)>,
    pub constants: Option<Seq<(Str, Str)>>,
    pub predicates: Seq<PredicateModel>,
}

impl View for Domain {
    type V = DomainModel;

    open spec fn view(&self) -> DomainModel {
        DomainModel {
            name: self.name@,
            tasks: self.tasks.deep_view(),
            methods: self.methods.deep_view(),
            actions: self.actions.deep_view(),
            types: self.types.deep_view(),
            constants: self.constants.deep_view(),
            predicates: self.predicates.deep_view(),
        }
    }
}

impl DeepView for Domain {
    type V = DomainModel;

    open spec fn deep_view(&self) -> DomainModel {
        self@
    }
}

impl Clone for Domain {
    fn clone(&self) -> (res: Self)
        ensures
            res@ == self@,
    {
        let tasks = self.tasks.clone();
        assert(tasks.deep_view() =~= self.tasks.deep_view());
        let actions = self.actions.clone();
        assert(actions.deep_view() =~= self.actions.deep_view());
        let predicates = self.predicates.clone();
        assert(predicates.deep_view() =~= self.predicates.deep_view());
        Domain {
            name: self.name.clone(),
            tasks,
            methods: clone_method_table(&self.methods),
            actions,
            types: clone_string_pairs(&self.types),
            constants: match &self.constants {
                Some(c) => Some(clone_string_pairs(c)),
                None => None,
            },
            predicates,
        }
    }
}

// ------------------------------------------------------------------------
// Exact copies of the nested tuples and vectors that the data model holds.
// ------------------------------------------------------------------------

/// A copy of a list of strings.
pub fn clone_strings(v: &Vec<String>) -> (res: Vec<String>)
    ensures
        res.deep_view() == v.deep_view(),
{
    let res = v.clone();
    assert(res.deep_view() =~= v.deep_view());
    res
}

/// A copy of a list of string pairs.
pub fn clone_string_pairs(v: &Vec<(String, String)>) -> (res: Vec<(String, String)>)
    ensures
        res.deep_view() == v.deep_view(),
{
    let mut res: Vec<(String, String)> = Vec::new();
    let mut i: usize = 0;
    while i < v.len()
        invariant
            i <= v.len(),
            res@.len() == i,
            forall|j: int| 0 <= j < i ==> #[trigger] res@[j].deep_view() == v@[j].deep_view(),
        decreases v.len() - i,
    {
        res.push((v[i].0.clone(), v[i].1.clone()));
        i = i + 1;
    }
    assert(res.deep_view() =~= v.deep_view());
    res
}

/// A copy of a list of effects (or of the literals of a `forall`).
pub fn clone_effects(v: &Vec<Effect>) -> (res: Vec<Effect>)
    ensures
        res.deep_view() == v.deep_view(),
{
    let mut res: Vec<Effect> = Vec::new();
    let mut i: usize = 0;
    while i < v.len()
        invariant
            i <= v.len(),
            res@.len() == i,
            forall|j: int| 0 <= j < i ==> #[trigger] res@[j].deep_view() == v@[j].deep_view(),
        decreases v.len() - i,
    {
        res.push((v[i].0, v[i].1.clone(), clone_strings(&v[i].2)));
        i = i + 1;
    }
    assert(res.deep_view() =~= v.deep_view());
    res
}

pub fn clone_opt_effects(v: &Option<Vec<Effect>>) -> (res: Option<Vec<Effect>>)
    ensures
        res.deep_view() == v.deep_view(),
{
    match v {
        Some(e) => Some(clone_effects(e)),
        None => None,
    }
}

/// A copy of a precondition.
pub fn clone_precondition(p: &Precondition) -> (res: Precondition)
    ensures
        res.deep_view() == p.deep_view(),
{
    let forall_part = match &p.3 {
        Some(f) => Some((((f.0).0.clone(), (f.0).1.clone()), clone_effects(&f.1))),
        None => None,
    };
    (p.0, p.1.clone(), clone_strings(&p.2), forall_part)
}

/// A copy of a list of preconditions.
pub fn clone_preconditions(v: &Vec<Precondition>) -> (res: Vec<Precondition>)
    ensures
        res.deep_view() == v.deep_view(),
{
    let mut res: Vec<Precondition> = Vec::new();
    let mut i: usize = 0;
    while i < v.len()
        invariant
            i <= v.len(),
            res@.len() == i,
            forall|j: int| 0 <= j < i ==> #[trigger] res@[j].deep_view() == v@[j].deep_view(),
        decreases v.len() - i,
    {
        res.push(clone_precondition(&v[i]));
        i = i + 1;
    }
    assert(res.deep_view() =~= v.deep_view());
    res
}

pub fn clone_opt_preconditions(v: &Option<Vec<Precondition>>) -> (res: Option<Vec<Precondition>>)
    ensures
        res.deep_view() == v.deep_view(),
{
    match v {
        Some(p) => Some(clone_preconditions(p)),
        None => None,
    }
}

pub fn clone_opt_constraints(v: &Option<Vec<(bool, String, String)>>) -> (res: Option<Vec<(bool, String, String)>>)
    ensures
        res.deep_view() == v.deep_view(),
{
    match v {
        Some(c) => {
            let mut res: Vec<(bool, String, String)> = Vec::new();
            let mut i: usize = 0;
            while i < c.len()
                invariant
                    i <= c.len(),
                    res@.len() == i,
                    forall|j: int| 0 <= j < i ==> #[trigger] res@[j].deep_view() == c@[j].deep_view(),
                decreases c.len() - i,
            {
                res.push((c[i].0, c[i].1.clone(), c[i].2.clone()));
                i = i + 1;
            }
            assert(res.deep_view() =~= c.deep_view());
            Some(res)
        },
        None => None,
    }
}

/// A copy of a method's subtask list.
pub fn clone_method_subtasks(v: &Vec<(MethodSubtask, Vec<Argument>)>) -> (res: Vec<(MethodSubtask, Vec<Argument>)>)
    ensures
        res.deep_view() == v.deep_view(),
{
    let mut res: Vec<(MethodSubtask, Vec<Argument>)> = Vec::new();
    let mut i: usize = 0;
    while i < v.len()
        invariant
            i <= v.len(),
            res@.len() == i,
            forall|j: int| 0 <= j < i ==> #[trigger] res@[j].deep_view() == v@[j].deep_view(),
        decreases v.len() - i,
    {
        let args = v[i].1.clone();
        assert(args.deep_view() =~= v[i as int].1.deep_view());
        res.push((v[i].0.clone(), args));
        i = i + 1;
    }
    assert(res.deep_view() =~= v.deep_view());
    res
}

/// A copy of a list of methods.
pub fn clone_methods(v: &Vec<Method>) -> (res: Vec<Method>)
    ensures
        res.deep_view() == v.deep_view(),
{
    let res = v.clone();
    assert(res.deep_view() =~= v.deep_view());
    res
}

/// A copy of the table from task names to methods.
pub fn clone_method_table(v: &Vec<(String, Vec<Method>)>) -> (res: Vec<(String, Vec<Method>)>)
    ensures
        res.deep_view() == v.deep_view(),
{
    let mut res: Vec<(String, Vec<Method>)> = Vec::new();
    let mut i: usize = 0;
    while i < v.len()
        invariant
            i <= v.len(),
            res@.len() == i,
            forall|j: int| 0 <= j < i ==> #[trigger] res@[j].deep_view() == v@[j].deep_view(),
        decreases v.len() - i,
    {
        res.push((v[i].0.clone(), clone_methods(&v[i].1)));
        i = i + 1;
    }
    assert(res.deep_view() =~= v.deep_view());
    res
}

} // verus!
