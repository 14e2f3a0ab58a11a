//! The order in which the subtasks of a task network are taken, from its
//! ordering constraints.
//!
//! Each subtask is a node named by its alias. A constraint `(< a b)` gives
//! `a` the successor `b` and raises the in-degree of `b`; a constraint
//! `(> a b)` raises the in-degree of `a` and gives `b` the successor `b`.
//! The order starts at the first node of in-degree zero and follows, from
//! each node taken, its first successor; the nodes are swept in their order
//! of declaration until as many subtasks have been taken as there are.
use vstd::prelude::*;
use crate::datastructures::domain::Str;
use crate::datastructures::problem::clone_htn_subtasks;
use crate::datastructures::domain::clone_strings;

verus! {

/// A subtask: its task, its alias and its arguments.
pub type SubtaskModel = (Str, Str, Seq<Str>);

/// An ordering constraint: its sign and the two aliases.
pub type OrderModel = (Str, Str, Str);

/// Whether the constraint raises the in-degree of the node `a`.
pub open spec fn raises(o: OrderModel, a: Str) -> bool {
    if o.0 == "<"@ {
        o.1 != a && o.2 == a
    } else {
        o.1 == a
    }
}

/// Whether the constraint gives the node `a` a successor (always `o.2`).
pub open spec fn gives_successor(o: OrderModel, a: Str) -> bool {
    if o.0 == "<"@ {
        o.1 == a
    } else {
        o.1 != a && o.2 == a
    }
}

/// Whether no constraint raises the in-degree of the node `a`.
pub open spec fn unraised(os: Seq<OrderModel>, a: Str) -> bool {
    forall|j: int| 0 <= j < os.len() ==> !raises(#[trigger] os[j], a)
}

/// The first successor of the node `a` given by the constraints from the `j`-th on.
pub open spec fn first_successor_from(os: Seq<OrderModel>, a: Str, j: int) -> Option<Str>
    decreases os.len() - j,
{
    if j < 0 || j >= os.len() {
        None
    } else if gives_successor(os[j], a) {
        Some(os[j].2)
    } else {
        first_successor_from(os, a, j + 1)
    }
}

/// The first successor of the node `a`.
pub open spec fn first_successor(os: Seq<OrderModel>, a: Str) -> Option<Str> {
    first_successor_from(os, a, 0)
}

/// The subtasks whose alias is `a`, in order.
pub open spec fn with_alias(subs: Seq<SubtaskModel>, a: Str) -> Seq<SubtaskModel> {
    subs.filter(|x: SubtaskModel| x.1 == a)
}

/// The word that marks that no node is looked for yet.
pub open spec fn looking_for_none() -> Str {
    "empty"@
}

/// One sweep over the nodes from the `k`-th on, looking for `l`, with the
/// subtasks taken so far: the node looked for and the subtasks taken after
/// the sweep, or `None` where the first node taken has no successor.
pub open spec fn sweep_from(
    subs: Seq<SubtaskModel>,
    os: Seq<OrderModel>,
    l: Str,
    acc: Seq<SubtaskModel>,
    k: int,
) -> Option<(Str, Seq<SubtaskModel>)>
    decreases subs.len() - k,
{
    if k < 0 || k >= subs.len() {
        Some((l, acc))
    } else {
        let a = subs[k].1;
        if l == looking_for_none() {
            if unraised(os, a) {
                match first_successor(os, a) {
                    Some(x) => Some((x, acc + with_alias(subs, a))),
                    None => None,
                }
            } else {
                sweep_from(subs, os, l, acc, k + 1)
            }
        } else if l == a {
            let l2 = match first_successor(os, a) {
                Some(x) => x,
                None => l,
            };
            sweep_from(subs, os, l2, acc + with_alias(subs, a), k + 1)
        } else {
            sweep_from(subs, os, l, acc, k + 1)
        }
    }
}

/// Sweeps until as many subtasks are taken as there are; `None` where a sweep
/// takes none or takes too many (the sweeps would never end), or fails.
pub open spec fn sweeps(
    subs: Seq<SubtaskModel>,
    os: Seq<OrderModel>,
    l: Str,
    acc: Seq<SubtaskModel>,
    fuel: nat,
) -> Option<Seq<SubtaskModel>>
    decreases fuel,
{
    if acc.len() == subs.len() {
        Some(acc)
    } else if fuel == 0 {
        None
    } else {
        match sweep_from(subs, os, l, acc, 0) {
            Some((l2, acc2)) => if acc2.len() == acc.len() || acc2.len() > subs.len() {
                None
            } else {
                sweeps(subs, os, l2, acc2, (fuel - 1) as nat)
            },
            None => None,
        }
    }
}

/// The subtasks in the order their constraints give; with no constraints, as
/// declared. `None` where the order cannot be followed to the end.
pub open spec fn ordered_subtasks(subs: Seq<SubtaskModel>, ordering: Option<Seq<OrderModel>>) -> Option<Seq<SubtaskModel>> {
    match ordering {
        Some(os) => if os.len() == 0 {
            Some(subs)
        } else {
            sweeps(subs, os, looking_for_none(), Seq::empty(), subs.len())
        },
        None => Some(subs),
    }
}

fn raises_exec(o: &(String, String, String), a: &String) -> (res: bool)
    ensures
        res == raises(o.deep_view(), a@),
{
    let lt = String::from_str("<");
    if o.0 == lt {
        o.1 != *a && o.2 == *a
    } else {
        o.1 == *a
    }
}

fn gives_successor_exec(o: &(String, String, String), a: &String) -> (res: bool)
    ensures
        res == gives_successor(o.deep_view(), a@),
{
    let lt = String::from_str("<");
    if o.0 == lt {
        o.1 == *a
    } else {
        o.1 != *a && o.2 == *a
    }
}

fn is_unraised(os: &Vec<(String, String, String)>, a: &String) -> (res: bool)
    ensures
        res == unraised(os.deep_view(), a@),
{
    let mut j: usize = 0;
    while j < os.len()
        invariant
            j <= os.len(),
            forall|m: int| 0 <= m < j ==> !raises(#[trigger] os.deep_view()[m], a@),
        decreases os.len() - j,
    {
        if raises_exec(&os[j], a) {
            assert(os.deep_view()[j as int] == os@[j as int].deep_view());
            return false;
        }
        assert(os.deep_view()[j as int] == os@[j as int].deep_view());
        j = j + 1;
    }
    true
}

fn first_successor_exec(os: &Vec<(String, String, String)>, a: &String) -> (res: Option<String>)
    ensures
        res.deep_view() == first_successor(os.deep_view(), a@),
{
    let mut j: usize = 0;
    while j < os.len()
        invariant
            j <= os.len(),
            first_successor_from(os.deep_view(), a@, j as int) == first_successor(os.deep_view(), a@),
        decreases os.len() - j,
    {
        assert(os.deep_view()[j as int] == os@[j as int].deep_view());
        if gives_successor_exec(&os[j], a) {
            return Some(os[j].2.clone());
        }
        j = j + 1;
    }
    None
}

fn push_with_alias(
    acc: &mut Vec<(String, String, Vec<String>)>,
    subs: &Vec<(String, String, Vec<String>)>,
    a: &String,
)
    ensures
        final(acc).deep_view() == old(acc).deep_view() + with_alias(subs.deep_view(), a@),
{
    let ghost start = acc.deep_view();
    let ghost sv = subs.deep_view();
    let mut m: usize = 0;
    while m < subs.len()
        invariant
            m <= subs.len(),
            sv == subs.deep_view(),
            acc.deep_view() == start + sv.take(m as int).filter(|x: SubtaskModel| x.1 == a@),
        decreases subs.len() - m,
    {
        proof {
            reveal(Seq::filter);
            assert(sv.take(m + 1).drop_last() =~= sv.take(m as int));
            assert(sv.take(m + 1).last() == sv[m as int]);
        }
        assert(sv[m as int] == subs@[m as int].deep_view());
        if subs[m].1 == *a {
            let x = (subs[m].0.clone(), subs[m].1.clone(), clone_strings(&subs[m].2));
            assert(x.deep_view() == sv[m as int]);
            let ghost old_acc = acc.deep_view();
            acc.push(x);
            assert(acc.deep_view() =~= old_acc.push(sv[m as int]));
            assert(sv.take(m + 1).filter(|x: SubtaskModel| x.1 == a@) =~= sv.take(m as int).filter(
                |x: SubtaskModel| x.1 == a@,
            ).push(sv[m as int]));
            assert(acc.deep_view() =~= start + sv.take(m + 1).filter(|x: SubtaskModel| x.1 == a@));
        } else {
            assert(acc.deep_view() =~= start + sv.take(m + 1).filter(|x: SubtaskModel| x.1 == a@));
        }
        m = m + 1;
    }
    assert(sv.take(subs.len() as int) =~= sv);
}

/// One sweep over the nodes; `None` where the first node taken has no successor.
fn sweep(
    subs: &Vec<(String, String, Vec<String>)>,
    os: &Vec<(String, String, String)>,
    l: String,
    acc: Vec<(String, String, Vec<String>)>,
) -> (res: Option<(String, Vec<(String, String, Vec<String>)>)>)
    ensures
        res.deep_view() == sweep_from(subs.deep_view(), os.deep_view(), l@, acc.deep_view(), 0),
{
    let ghost sv = subs.deep_view();
    let ghost ov = os.deep_view();
    let mut l = l;
    let mut acc = acc;
    let none_word = String::from_str("empty");
    let mut k: usize = 0;
    let ghost target = sweep_from(sv, ov, l@, acc.deep_view(), 0);
    while k < subs.len()
        invariant
            k <= subs.len(),
            sv == subs.deep_view(),
            ov == os.deep_view(),
            sweep_from(sv, ov, l@, acc.deep_view(), k as int) == target,
            none_word@ == looking_for_none(),
        decreases subs.len() - k,
    {
        let a = subs[k].1.clone();
        assert(sv[k as int].1 == a@);
        if l == none_word {
            if is_unraised(os, &a) {
                match first_successor_exec(os, &a) {
                    Some(x) => {
                        push_with_alias(&mut acc, subs, &a);
                        return Some((x, acc));
                    },
                    None => {
                        return None;
                    },
                }
            }
        } else if l == a {
            match first_successor_exec(os, &a) {
                Some(x) => {
                    l = x;
                },
                None => {},
            }
            push_with_alias(&mut acc, subs, &a);
        }
        k = k + 1;
    }
    Some((l, acc))
}

/// The subtasks in the order their constraints give (as declared where there
/// are none); `None` where the order cannot be followed to the end.
pub fn order_subtasks(
    subtasks: Vec<(String, String, Vec<String>)>,
    ordering: &Option<Vec<(String, String, String)>>,
) -> (res: Option<Vec<(String, String, Vec<String>)>>)
    ensures
        res.deep_view() == ordered_subtasks(subtasks.deep_view(), ordering.deep_view()),
{
    let os = match ordering {
        Some(os) => os,
        None => {
            return Some(subtasks);
        },
    };
    if os.len() == 0 {
        return Some(subtasks);
    }
    let ghost sv = subtasks.deep_view();
    let ghost ov = os.deep_view();
    let n = subtasks.len();
    let mut l = String::from_str("empty");
    let mut acc: Vec<(String, String, Vec<String>)> = Vec::new();
    let mut fuel: usize = n;
    assert(acc.deep_view() =~= Seq::<SubtaskModel>::empty());
    while acc.len() != n
        invariant
            sv == subtasks.deep_view(),
            ov == os.deep_view(),
            n == sv.len(),
            acc.len() <= n,
            sweeps(sv, ov, l@, acc.deep_view(), fuel as nat) == ordered_subtasks(sv, ordering.deep_view()),
        decreases fuel,
    {
        if fuel == 0 {
            return None;
        }
        let before = acc.len();
        match sweep(&subtasks, os, l, acc) {
            Some((l2, acc2)) => {
                if acc2.len() == before || acc2.len() > n {
                    return None;
                }
                l = l2;
                acc = acc2;
            },
            None => {
                return None;
            },
        }
        fuel = fuel - 1;
    }
    Some(acc)
}

} // verus!
