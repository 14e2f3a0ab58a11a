use vstd::prelude::*;
use std::collections::{HashMap, HashSet};
use crate::datastructures::domain::{Str, Task, TaskModel, Method, MethodModel, Action, ActionModel, Precondition, PreconditionModel, clone_strings, clone_preconditions};
use crate::datastructures::problem::clone_state;
use crate::datastructures::problem::{Problem, ProblemModel, State, StateModel};

verus! {

/// Relevant variables: for each parameter its name, its type and the values it may still take.
pub type RelVars = Vec<(String, String, Vec<String>)>;

/// The model of [`RelVars`].
pub type RelVarsModel = Seq<(Str, Str, Seq<Str>)>;

/// The call stack of a search node: for each open method whether it was
/// called by another method, the calling methods (with their relevant
/// variables, their passed-on preconditions and the state when they were
/// entered), and for each open method the index of its next subtask.
pub type Called = (Vec<bool>, Vec<(Method, RelVars, Vec<Precondition>, State)>, Vec<usize>);

pub type CalledModel = (Seq<bool>, Seq<(MethodModel, RelVarsModel, Seq<PreconditionModel>, StateModel)>, Seq<usize>);

/// The functions applied so far: the root's name with the ids of the
/// functions it called, then every applied function with its id, the ids of
/// the functions it called and its relevant variables.
pub type AppliedFunctions = ((String, Vec<usize>), Vec<(SubtaskTypes, usize, Vec<usize>, RelVars)>);

pub type AppliedFunctionsModel = ((Str, Seq<usize>), Seq<(SubtaskTypesModel, usize, Seq<usize>, RelVarsModel)>);

/// An entry of a search node's subtask queue.
#[derive(Debug, Hash)]
pub enum SubtaskTypes {
    HtnTask((String, String, Vec<String>)),
    Task(Task),
    Method(Method),
    Action(Action),
}

pub enum SubtaskTypesModel {
    HtnTask((Str, Str, Seq<Str>)),
    Task(TaskModel),
    Method(MethodModel),
    Action(ActionModel),
}

impl View for SubtaskTypes {
    type V = SubtaskTypesModel;

    open spec fn view(&self) -> SubtaskTypesModel {
        match self {
            SubtaskTypes::HtnTask(h) => SubtaskTypesModel::HtnTask(h.deep_view()),
            SubtaskTypes::Task(t) => SubtaskTypesModel::Task(t@),
            SubtaskTypes::Method(m) => SubtaskTypesModel::Method(m@),
            SubtaskTypes::Action(a) => SubtaskTypesModel::Action(a@),
        }
    }
}

impl DeepView for SubtaskTypes {
    type V = SubtaskTypesModel;

    open spec fn deep_view(&self) -> SubtaskTypesModel {
        self@
    }
}

impl Clone for SubtaskTypes {
    fn clone(&self) -> (res: Self)
        ensures
            res@ == self@,
    {
        match self {
            SubtaskTypes::HtnTask(h) => SubtaskTypes::HtnTask((h.0.clone(), h.1.clone(), clone_strings(&h.2))),
            SubtaskTypes::Task(t) => SubtaskTypes::Task(t.clone()),
            SubtaskTypes::Method(m) => SubtaskTypes::Method(m.clone()),
            SubtaskTypes::Action(a) => SubtaskTypes::Action(a.clone()),
        }
    }
}

/// A search node of the totally ordered search.
pub struct Node {
    pub problem: Problem,
    pub subtask_queue: Vec<(SubtaskTypes, RelVars)>,
    pub called: Called,
    pub applied_functions: AppliedFunctions,
    pub hash_table: HashSet<u64>,
    pub passing_preconditions: Vec<Precondition>,
    pub goal_functions: Vec<String>,
}

pub struct NodeModel {
    pub problem: ProblemModel,
    pub subtask_queue: Seq<(SubtaskTypesModel, RelVarsModel)>,
    pub called: CalledModel,
    pub applied_functions: AppliedFunctionsModel,
    pub hash_table: Set<u64>,
    pub passing_preconditions: Seq<PreconditionModel>,
    pub goal_functions: Seq<Str>,
}

impl View for Node {
    type V = NodeModel;

    open spec fn view(&self) -> NodeModel {
        NodeModel {
            problem: self.problem@,
            subtask_queue: self.subtask_queue.deep_view(),
            called: self.called.deep_view(),
            applied_functions: self.applied_functions.deep_view(),
            hash_table: self.hash_table@,
            passing_preconditions: self.passing_preconditions.deep_view(),
            goal_functions: self.goal_functions.deep_view(),
        }
    }
}

impl DeepView for Node {
    type V = NodeModel;

    open spec fn deep_view(&self) -> NodeModel {
        self@
    }
}

/// A search node of the partially ordered search: every entry of the
/// subtask queue carries its own call stack and passed-on preconditions.
pub struct PartialNode {
    pub problem: Problem,
    pub subtask_queue: Vec<(SubtaskTypes, RelVars, Called, Vec<Precondition>)>,
    pub applied_functions: AppliedFunctions,
    pub hash_table: HashSet<u64>,
    pub hash_counter: HashMap<u64, usize>,
    pub goal_functions: Vec<String>,
    pub original_state: State,
}

pub struct PartialNodeModel {
    pub problem: ProblemModel,
    pub subtask_queue: Seq<(SubtaskTypesModel, RelVarsModel, CalledModel, Seq<PreconditionModel>)>,
    pub applied_functions: AppliedFunctionsModel,
    pub hash_table: Set<u64>,
    pub hash_counter: Map<u64, usize>,
    pub goal_functions: Seq<Str>,
    pub original_state: StateModel,
}

impl View for PartialNode {
    type V = PartialNodeModel;

    open spec fn view(&self) -> PartialNodeModel {
        PartialNodeModel {
            problem: self.problem@,
            subtask_queue: self.subtask_queue.deep_view(),
            applied_functions: self.applied_functions.deep_view(),
            hash_table: self.hash_table@,
            hash_counter: self.hash_counter@,
            goal_functions: self.goal_functions.deep_view(),
            original_state: self.original_state.deep_view(),
        }
    }
}

impl DeepView for PartialNode {
    type V = PartialNodeModel;

    open spec fn deep_view(&self) -> PartialNodeModel {
        self@
    }
}

} // verus!

verus! {

/// A copy of a list of relevant variables.
pub fn clone_relvars(v: &RelVars) -> (res: RelVars)
    ensures
        res.deep_view() == v.deep_view(),
        res.len() == v.len(),
{
    let res = crate::datastructures::problem::clone_htn_subtasks(v);
    assert(res.deep_view().len() == v.deep_view().len());
    res
}


/// A copy of a set of state hashes: `HashSet::clone` of std, which gives a
/// set with the same elements.
#[verifier::external_body]
pub(crate) fn copy_hash_table(h: &HashSet<u64>) -> (res: HashSet<u64>)
    ensures
        res@ == h@,
{
    h.clone()
}

/// The deep view of a list of indexes is its view.
pub proof fn lemma_indices_view(v: Vec<usize>)
    ensures
        v.deep_view() == v@,
{
    assert(v.deep_view() =~= v@);
}

/// A copy of a list of indexes.
pub fn clone_indices(v: &Vec<usize>) -> (res: Vec<usize>)
    ensures
        res@ == v@,
        res.deep_view() == v.deep_view(),
{
    let mut res: Vec<usize> = Vec::new();
    let mut i: usize = 0;
    while i < v.len()
        invariant
            i <= v.len(),
            res@ == v@.take(i as int),
        decreases v.len() - i,
    {
        res.push(v[i]);
        i = i + 1;
        assert(res@ =~= v@.take(i as int));
    }
    assert(v@.take(i as int) =~= v@);
    assert(res.deep_view() =~= v.deep_view());
    res
}

/// A copy of a list of flags.
pub fn clone_flags(v: &Vec<bool>) -> (res: Vec<bool>)
    ensures
        res@ == v@,
        res.deep_view() == v.deep_view(),
{
    let mut res: Vec<bool> = Vec::new();
    let mut i: usize = 0;
    while i < v.len()
        invariant
            i <= v.len(),
            res@ == v@.take(i as int),
        decreases v.len() - i,
    {
        res.push(v[i]);
        i = i + 1;
        assert(res@ =~= v@.take(i as int));
    }
    assert(v@.take(i as int) =~= v@);
    assert(res.deep_view() =~= v.deep_view());
    res
}

/// A copy of a call stack.
pub fn clone_called(c: &Called) -> (res: Called)
    ensures
        res.deep_view() == c.deep_view(),
{
    let mut entries: Vec<(Method, RelVars, Vec<Precondition>, State)> = Vec::new();
    let mut i: usize = 0;
    while i < c.1.len()
        invariant
            i <= c.1.len(),
            entries@.len() == i,
            forall|j: int| 0 <= j < i ==> #[trigger] entries@[j].deep_view() == c.1@[j].deep_view(),
        decreases c.1.len() - i,
    {
        let e = &c.1[i];
        entries.push((e.0.clone(), clone_relvars(&e.1), clone_preconditions(&e.2), clone_state(&e.3)));
        i = i + 1;
    }
    assert(entries.deep_view() =~= c.1.deep_view());
    (clone_flags(&c.0), entries, clone_indices(&c.2))
}

/// A copy of the record of applied functions.
pub fn clone_applied(a: &AppliedFunctions) -> (res: AppliedFunctions)
    ensures
        res.deep_view() == a.deep_view(),
{
    let mut entries: Vec<(SubtaskTypes, usize, Vec<usize>, RelVars)> = Vec::new();
    let mut i: usize = 0;
    while i < a.1.len()
        invariant
            i <= a.1.len(),
            entries@.len() == i,
            forall|j: int| 0 <= j < i ==> #[trigger] entries@[j].deep_view() == a.1@[j].deep_view(),
        decreases a.1.len() - i,
    {
        let e = &a.1[i];
        entries.push((e.0.clone(), e.1, clone_indices(&e.2), clone_relvars(&e.3)));
        i = i + 1;
    }
    assert(entries.deep_view() =~= a.1.deep_view());
    (((a.0).0.clone(), clone_indices(&(a.0).1)), entries)
}

/// A copy of the subtask queue of a totally ordered node.
pub fn clone_queue(q: &Vec<(SubtaskTypes, RelVars)>) -> (res: Vec<(SubtaskTypes, RelVars)>)
    ensures
        res.deep_view() == q.deep_view(),
{
    let mut res: Vec<(SubtaskTypes, RelVars)> = Vec::new();
    let mut i: usize = 0;
    while i < q.len()
        invariant
            i <= q.len(),
            res@.len() == i,
            forall|j: int| 0 <= j < i ==> #[trigger] res@[j].deep_view() == q@[j].deep_view(),
        decreases q.len() - i,
    {
        res.push((q[i].0.clone(), clone_relvars(&q[i].1)));
        i = i + 1;
    }
    assert(res.deep_view() =~= q.deep_view());
    res
}

/// A copy of the subtask queue of a partially ordered node.
pub fn clone_partial_queue(q: &Vec<(SubtaskTypes, RelVars, Called, Vec<Precondition>)>) -> (res: Vec<(SubtaskTypes, RelVars, Called, Vec<Precondition>)>)
    ensures
        res.deep_view() == q.deep_view(),
{
    let mut res: Vec<(SubtaskTypes, RelVars, Called, Vec<Precondition>)> = Vec::new();
    let mut i: usize = 0;
    while i < q.len()
        invariant
            i <= q.len(),
            res@.len() == i,
            forall|j: int| 0 <= j < i ==> #[trigger] res@[j].deep_view() == q@[j].deep_view(),
        decreases q.len() - i,
    {
        res.push((q[i].0.clone(), clone_relvars(&q[i].1), clone_called(&q[i].2), clone_preconditions(&q[i].3)));
        i = i + 1;
    }
    assert(res.deep_view() =~= q.deep_view());
    res
}

impl Clone for Node {
    fn clone(&self) -> (res: Self)
        ensures
            res@ == self@,
    {
        Node {
            problem: self.problem.clone(),
            subtask_queue: clone_queue(&self.subtask_queue),
            called: clone_called(&self.called),
            applied_functions: clone_applied(&self.applied_functions),
            hash_table: copy_hash_table(&self.hash_table),
            passing_preconditions: clone_preconditions(&self.passing_preconditions),
            goal_functions: clone_strings(&self.goal_functions),
        }
    }
}

impl Clone for PartialNode {
    fn clone(&self) -> (res: Self)
        ensures
            res@ == self@,
    {
        PartialNode {
            problem: self.problem.clone(),
            subtask_queue: clone_partial_queue(&self.subtask_queue),
            applied_functions: clone_applied(&self.applied_functions),
            hash_table: copy_hash_table(&self.hash_table),
            hash_counter: self.hash_counter.clone(),
            goal_functions: clone_strings(&self.goal_functions),
            original_state: clone_state(&self.original_state),
        }
    }
}

} // verus!
