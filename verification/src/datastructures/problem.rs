use vstd::prelude::*;
use crate::datastructures::domain::{Str, clone_strings, clone_string_pairs};

verus! {

/// A state: the list of ground predicates that hold, each a name with its arguments.
pub type State = Vec<(String, Vec<String>)>;

/// The model of a [`State`].
pub type StateModel = Seq<(Str, Seq<Str>)>;

/// An object of the problem: its name, its declared type and the list of
/// all the types it belongs to (its own type first, then its supertypes).
pub type Object = (String, String, Vec<String>);

/// The initial task network of a problem.
pub struct Htn {
    pub parameters: Vec<(String, String)>,
    pub subtasks: Vec<(String, String, Vec<String>)>,
}

pub struct HtnModel {
    pub parameters: Seq<(Str, Str)>,
    pub subtasks: Seq<(Str, Str, Seq<Str>)>,
}

impl View for Htn {
    type V = HtnModel;

    open spec fn view(&self) -> HtnModel {
        HtnModel { parameters: self.parameters.deep_view(), subtasks: self.subtasks.deep_view() }
    }
}

impl DeepView for Htn {
    type V = HtnModel;

    open spec fn deep_view(&self) -> HtnModel {
        self@
    }
}

impl Clone for Htn {
    fn clone(&self) -> (res: Self)
        ensures
            res@ == self@,
    {
        Htn { parameters: clone_string_pairs(&self.parameters), subtasks: clone_htn_subtasks(&self.subtasks) }
    }
}

/// The overarching structure of a planning problem.
pub struct Problem {
    pub name: String,
    pub domain: String,
    pub objects: Vec<Object>,
    pub htn: Htn,
    pub state: State,
    pub goal: Option<Vec<(String, Vec<String>)>>,
}

pub struct ProblemModel {
    pub name: Str,
    pub domain: Str,
    pub objects: Seq<(Str, Str, Seq<Str>)>,
    pub htn: HtnModel,
    pub state: StateModel,
    pub goal: Option<StateModel>,
}

impl View for Problem {
    type V = ProblemModel;

    open spec fn view(&self) -> ProblemModel {
        ProblemModel {
            name: self.name@,
            domain: self.domain@,
            objects: self.objects.deep_view(),
            htn: self.htn@,
            state: self.state.deep_view(),
            goal: self.goal.deep_view(),
        }
    }
}

impl DeepView for Problem {
    type V = ProblemModel;

    open spec fn deep_view(&self) -> ProblemModel {
        self@
    }
}

impl Clone for Problem {
    fn clone(&self) -> (res: Self)
        ensures
            res@ == self@,
    {
        Problem {
            name: self.name.clone(),
            domain: self.domain.clone(),
            objects: clone_htn_subtasks(&self.objects),
            htn: self.htn.clone(),
            state: clone_state(&self.state),
            goal: match &self.goal {
                Some(g) => Some(clone_state(g)),
                None => None,
            },
        }
    }
}

/// A copy of a state (or of a goal).
pub fn clone_state(v: &State) -> (res: State)
    ensures
        res.deep_view() == v.deep_view(),
{
    let mut res: State = Vec::new();
    let mut i: usize = 0;
    while i < v.len()
        invariant
            i <= v.len(),
            res@.len() == i,
            forall|j: int| 0 <= j < i ==> #[trigger] res@[j].deep_view() == v@[j].deep_view(),
        decreases v.len() - i,
    {
        res.push((v[i].0.clone(), clone_strings(&v[i].1)));
        i = i + 1;
    }
    assert(res.deep_view() =~= v.deep_view());
    res
}

/// A copy of a list of string triples (subtasks, objects, relevant variables).
pub fn clone_htn_subtasks(v: &Vec<(String, String, Vec<String>)>) -> (res: Vec<(String, String, Vec<String>)>)
    ensures
        res.deep_view() == v.deep_view(),
{
    let mut res: Vec<(String, String, Vec<String>)> = Vec::new();
    let mut i: usize = 0;
    while i < v.len()
        invariant
            i <= v.len(),
            res@.len() == i,
            forall|j: int| 0 <= j < i ==> #[trigger] res@[j].deep_view() == v@[j].deep_view(),
        decreases v.len() - i,
    {
        res.push((v[i].0.clone(), v[i].1.clone(), clone_strings(&v[i].2)));
        i = i + 1;
    }
    assert(res.deep_view() =~= v.deep_view());
    res
}

} // verus!
