//! Comparisons and intersections of lists of names.
use vstd::prelude::*;
use crate::datastructures::domain::Str;
use crate::text::{contains_string, lemma_push_contains, lemma_take_one_more, lemma_push_no_duplicates};

verus! {

/// Whether two lists hold the same strings in the same order.
pub fn compare_lists(list1: &Vec<String>, list2: &Vec<String>) -> (res: bool)
    ensures
        res == (list1.deep_view() == list2.deep_view()),
{
    if list1.len() != list2.len() {
        assert(list1.deep_view().len() != list2.deep_view().len());
        return false;
    }
    let mut x: usize = 0;
    while x < list1.len()
        invariant
            list1.len() == list2.len(),
            x <= list1.len(),
            forall|j: int| 0 <= j < x ==> list1@[j]@ == list2@[j]@,
        decreases list1.len() - x,
    {
        if list1[x] != list2[x] {
            assert(list1.deep_view()[x as int] != list2.deep_view()[x as int]);
            return false;
        }
        x = x + 1;
    }
    assert(list1.deep_view() =~= list2.deep_view());
    true
}

/// Whether every list holds `x`.
pub open spec fn in_all(lists: Seq<Seq<Str>>, x: Str) -> bool {
    forall|k: int| 0 <= k < lists.len() ==> (#[trigger] lists[k]).contains(x)
}

fn in_all_lists(nums: &Vec<Vec<String>>, x: &String) -> (res: bool)
    ensures
        res == in_all(nums.deep_view(), x@),
{
    let mut k: usize = 0;
    while k < nums.len()
        invariant
            k <= nums.len(),
            forall|j: int| 0 <= j < k ==> (#[trigger] nums.deep_view()[j]).contains(x@),
        decreases nums.len() - k,
    {
        assert(nums.deep_view()[k as int] == nums@[k as int].deep_view());
        if !contains_string(&nums[k], x) {
            return false;
        }
        k = k + 1;
    }
    true
}

/// The first `n` values of `first` that every list holds, each once, in order.
pub open spec fn kept_all(first: Seq<Str>, lists: Seq<Seq<Str>>, n: int) -> Seq<Str>
    decreases n,
{
    if n <= 0 {
        Seq::empty()
    } else {
        let r = kept_all(first, lists, n - 1);
        let x = first[n - 1];
        if in_all(lists, x) && !r.contains(x) { r.push(x) } else { r }
    }
}

/// The values of the first list that every list holds, each once, in order.
pub open spec fn intersect_first(lists: Seq<Seq<Str>>) -> Seq<Str> {
    kept_all(lists[0], lists, lists[0].len() as int)
}

/// The values that every list holds, each once.
pub fn intersection(nums: Vec<Vec<String>>) -> (res: Vec<String>)
    requires
        nums.len() > 0,
    ensures
        res.deep_view() == intersect_first(nums.deep_view()),
        res.deep_view().no_duplicates(),
        forall|x: Str| res.deep_view().contains(x) <==> in_all(nums.deep_view(), x),
{
    let ghost lists = nums.deep_view();
    let first = &nums[0];
    assert(lists[0] == first.deep_view());
    let mut result: Vec<String> = Vec::new();
    let mut i: usize = 0;
    while i < first.len()
        invariant
            lists == nums.deep_view(),
            nums.len() > 0,
            first == &nums@[0],
            lists[0] == first.deep_view(),
            i <= first.len(),
            result.deep_view().no_duplicates(),
            result.deep_view() == kept_all(lists[0], lists, i as int),
            forall|x: Str| #![trigger result.deep_view().contains(x)] result.deep_view().contains(x) <==> (first.deep_view().take(i as int).contains(x) && in_all(lists, x)),
        decreases first.len() - i,
    {
        let x = &first[i];
        let ghost before = result.deep_view();
        let ghost old_i = i as int;
        assert(first.deep_view()[i as int] == x@);
        proof { lemma_take_one_more(first.deep_view(), i as int); }
        let keep = in_all_lists(&nums, x) && !contains_string(&result, x);
        if keep {
            result.push(x.clone());
            assert(result.deep_view() =~= before.push(x@));
            proof { lemma_push_no_duplicates(before, x@); }
        } else {
            assert(result.deep_view() =~= before);
        }
        i = i + 1;
        assert forall|y: Str| #![trigger result.deep_view().contains(y)] result.deep_view().contains(y) <==> (first.deep_view().take(i as int).contains(y) && in_all(lists, y)) by {
            assert(before.contains(y) <==> (first.deep_view().take(old_i).contains(y) && in_all(lists, y)));
            lemma_push_contains(before, x@, y);
            lemma_push_contains(first.deep_view().take(old_i), x@, y);
        }
    }
    assert(first.deep_view().take(i as int) =~= first.deep_view());
    assert forall|x: Str| in_all(lists, x) implies first.deep_view().contains(x) by {
        assert(lists[0].contains(x));
    }
    result
}

} // verus!
