//! Merging relevant variables that share a name.
use vstd::prelude::*;
use crate::datastructures::domain::{Str, clone_strings};
use crate::datastructures::node::{RelVars, RelVarsModel};
use crate::toolbox::lists::{intersection, in_all, intersect_first};
use crate::toolbox::precondition::names_distinct;

verus! {

/// The names of a list of relevant variables, each once, in the order of their first occurrence.
pub open spec fn distinct_names(s: RelVarsModel) -> Seq<Str>
    decreases s.len(),
{
    if s.len() == 0 {
        Seq::empty()
    } else {
        let d = distinct_names(s.drop_last());
        if d.contains(s.last().0) { d } else { d.push(s.last().0) }
    }
}

/// Whether a relevant variable named `n` occurs in `s`.
pub open spec fn has_name(s: RelVarsModel, n: Str) -> bool {
    exists|j: int| 0 <= j < s.len() && (#[trigger] s[j]).0 == n
}

/// The index of the first relevant variable named `n`.
pub open spec fn first_named(s: RelVarsModel, n: Str) -> int {
    choose|j: int| 0 <= j < s.len() && s[j].0 == n && forall|k: int| 0 <= k < j ==> (#[trigger] s[k]).0 != n
}

/// Whether a relevant variable named `n` occurs more than once in `s`.
pub open spec fn named_twice(s: RelVarsModel, n: Str) -> bool {
    exists|j1: int, j2: int| 0 <= j1 < j2 < s.len() && (#[trigger] s[j1]).0 == n && (#[trigger] s[j2]).0 == n
}

/// Whether every relevant variable named `n` may take the value `y`.
#[verifier::opaque]
pub open spec fn shared(input: RelVarsModel, n: Str, y: Str) -> bool {
    forall|j: int| 0 <= j < input.len() && (#[trigger] input[j]).0 == n ==> input[j].2.contains(y)
}

/// The entry that `check_duplicates` makes for the `k`-th distinct name of `input`.
#[verifier::opaque]
pub open spec fn entry_ok(input: RelVarsModel, e: (Str, Str, Seq<Str>), k: int) -> bool {
    let n = e.0;
    let f = first_named(input, n);
    &&& 0 <= k < distinct_names(input).len()
    &&& n == distinct_names(input)[k]
    &&& e.1 == input[f].1
    &&& !named_twice(input, n) ==> e.2 == input[f].2
    &&& named_twice(input, n) ==> e.2.no_duplicates() && forall|y: Str| #[trigger] e.2.contains(y) <==> shared(input, n, y)
}

/// What `check_duplicates` makes of `input`: one entry for every name, in
/// the order of first occurrence, with the type of the first occurrence;
/// a name that occurs once keeps its values; the values of a name that occurs
/// more than once are those that all its occurrences share, each once.
pub open spec fn merged(input: RelVarsModel, out: RelVarsModel) -> bool {
    &&& out.len() == distinct_names(input).len()
    &&& forall|k: int| 0 <= k < out.len() ==> entry_ok(input, #[trigger] out[k], k)
}

proof fn lemma_distinct_names(s: RelVarsModel)
    ensures
        forall|n: Str| distinct_names(s).contains(n) <==> has_name(s, n),
        distinct_names(s).no_duplicates(),
        forall|k: int| 0 <= k < distinct_names(s).len() ==> has_name(s, #[trigger] distinct_names(s)[k]),
    decreases s.len(),
{
    if s.len() > 0 {
        let p = s.drop_last();
        lemma_distinct_names(p);
        let d = distinct_names(p);
        assert forall|n: Str| distinct_names(s).contains(n) <==> has_name(s, n) by {
            crate::text::lemma_push_contains(d, s.last().0, n);
            if has_name(p, n) {
                let j = choose|j: int| 0 <= j < p.len() && (#[trigger] p[j]).0 == n;
                assert(s[j] == p[j]);
            }
            if has_name(s, n) {
                let j = choose|j: int| 0 <= j < s.len() && (#[trigger] s[j]).0 == n;
                if j < p.len() { assert(s[j] == p[j]); }
            }
        }
        if !d.contains(s.last().0) {
            crate::text::lemma_push_no_duplicates(d, s.last().0);
        }
        assert forall|k: int| 0 <= k < distinct_names(s).len() implies has_name(s, #[trigger] distinct_names(s)[k]) by {
            assert(distinct_names(s).contains(distinct_names(s)[k]));
        }
    }
}

/// The first named index exists and is the least one.
pub proof fn lemma_first_named(s: RelVarsModel, n: Str, j: int)
    requires
        0 <= j < s.len(),
        s[j].0 == n,
        forall|k: int| 0 <= k < j ==> (#[trigger] s[k]).0 != n,
    ensures
        first_named(s, n) == j,
{
    let f = first_named(s, n);
    assert(0 <= j < s.len() && s[j].0 == n && forall|k: int| 0 <= k < j ==> (#[trigger] s[k]).0 != n);
    if f < j { assert(s[f].0 != n); } else if f > j { assert(s[j].0 != n); }
}

/// The first `n` relevant variables with those of the same name merged: a new
/// name is added at the end, a known one keeps the values of its entry that
/// the new one shares, each once, in order.
pub open spec fn dedup_merge(input: RelVarsModel, n: int) -> RelVarsModel
    decreases n,
{
    if n <= 0 {
        Seq::empty()
    } else {
        let r = dedup_merge(input, n - 1);
        let x = input[n - 1];
        if has_name(r, x.0) {
            let d = first_named(r, x.0);
            r.update(d, (r[d].0, r[d].1, intersect_first(seq![r[d].2, x.2])))
        } else {
            r.push(x)
        }
    }
}

/// In the case that two relevant variables have the same name, keep one with
/// the values that they share.
pub fn check_duplicates(relvars: &mut RelVars) -> (res: RelVars)
    ensures
        final(relvars).deep_view() == old(relvars).deep_view(),
        res.deep_view() == dedup_merge(old(relvars).deep_view(), old(relvars).len() as int),
        merged(old(relvars).deep_view(), res.deep_view()),
        names_distinct(res.deep_view()),
{
    let ghost input = relvars.deep_view();
    let mut new_relvars: RelVars = Vec::new();
    let mut i: usize = 0;
    proof { lemma_distinct_names(input.take(0)); }
    assert(merged(input.take(0), new_relvars.deep_view()));
    while i < relvars.len()
        invariant
            i <= relvars.len(),
            input == relvars.deep_view(),
            merged(input.take(i as int), new_relvars.deep_view()),
            new_relvars.deep_view() == dedup_merge(input, i as int),
        decreases relvars.len() - i,
    {
        let ghost pre = input.take(i as int);
        let ghost post = input.take(i + 1);
        let ghost out = new_relvars.deep_view();
        let ghost x = input[i as int];
        assert(x == relvars@[i as int].deep_view());
        assert(post =~= pre.push(x));
        assert(post.drop_last() =~= pre);
        proof {
            lemma_distinct_names(pre);
            lemma_distinct_names(post);
        }
        let mut d: usize = 0;
        while d < new_relvars.len() && new_relvars[d].0 != relvars[i].0
            invariant
                d <= new_relvars.len(),
                out == new_relvars.deep_view(),
                forall|k: int| 0 <= k < d ==> (#[trigger] out[k]).0 != x.0,
            decreases new_relvars.len() - d,
        {
            assert(out[d as int] == new_relvars@[d as int].deep_view());
            d = d + 1;
        }
        if d < new_relvars.len() {
            assert(out[d as int] == new_relvars@[d as int].deep_view());
            assert(out[d as int].0 == x.0);
            let first_values = clone_strings(&new_relvars[d].2);
            let second_values = clone_strings(&relvars[i].2);
            let mut both: Vec<Vec<String>> = Vec::new();
            both.push(first_values);
            both.push(second_values);
            assert(both.deep_view() =~= seq![out[d as int].2, x.2]);
            let merged_values = intersection(both);
            let name = new_relvars[d].0.clone();
            let typ = new_relvars[d].1.clone();
            let ghost mv = merged_values.deep_view();
            new_relvars.set(d, (name, typ, merged_values));
            assert(new_relvars.deep_view() =~= out.update(d as int, (out[d as int].0, out[d as int].1, mv)));
            proof { lemma_first_named(out, x.0, d as int); }
            proof {
                lemma_check_duplicates_merge(input, i as int, out, d as int, merged_values.deep_view());
            }
        } else {
            let ghost bd = new_relvars.deep_view();
            let item = (relvars[i].0.clone(), relvars[i].1.clone(), clone_strings(&relvars[i].2));
            new_relvars.push(item);
            assert(new_relvars.deep_view() =~= bd.push(x));
            assert(!has_name(out, x.0));
            proof {
                lemma_check_duplicates_new(input, i as int, out);
            }
        }
        i = i + 1;
    }
    assert(input.take(i as int) =~= input);
    proof {
        let out = new_relvars.deep_view();
        lemma_distinct_names(input);
        assert forall|a: int, b: int| 0 <= a < b < out.len() implies (#[trigger] out[a]).0 != (#[trigger] out[b]).0 by {
            reveal(entry_ok);
            assert(entry_ok(input, out[a], a));
            assert(entry_ok(input, out[b], b));
        }
    }
    new_relvars
}

/// Every name that occurs has a first occurrence.
pub proof fn lemma_first_named_exists(s: RelVarsModel, n: Str)
    requires
        has_name(s, n),
    ensures
        0 <= first_named(s, n) < s.len(),
        s[first_named(s, n)].0 == n,
        forall|q: int| 0 <= q < first_named(s, n) ==> (#[trigger] s[q]).0 != n,
    decreases s.len(),
{
    let p = s.drop_last();
    if has_name(p, n) {
        lemma_first_named_exists(p, n);
        let f = first_named(p, n);
        assert forall|q: int| 0 <= q < f implies (#[trigger] s[q]).0 != n by { assert(s[q] == p[q]); }
        assert(s[f] == p[f]);
        lemma_first_named(s, n, f);
    } else {
        let j = choose|j: int| 0 <= j < s.len() && (#[trigger] s[j]).0 == n;
        if j < p.len() { assert(p[j] == s[j]); }
        assert forall|q: int| 0 <= q < s.len() - 1 implies (#[trigger] s[q]).0 != n by {
            assert(s[q] == p[q]);
            if s[q].0 == n { assert(has_name(p, n)); }
        }
        lemma_first_named(s, n, s.len() - 1);
    }
}

proof fn lemma_other_twice(input: RelVarsModel, i: int, n: Str)
    requires
        0 <= i < input.len(),
        n != input[i].0,
    ensures
        named_twice(input.take(i + 1), n) == named_twice(input.take(i), n),
        has_name(input.take(i + 1), n) == has_name(input.take(i), n),
{
    let pre = input.take(i);
    let post = input.take(i + 1);
    assert(post =~= pre.push(input[i]));
    if named_twice(post, n) {
        let (j1, j2) = choose|j1: int, j2: int| 0 <= j1 < j2 < post.len() && (#[trigger] post[j1]).0 == n && (#[trigger] post[j2]).0 == n;
        assert(post[j1] == pre[j1] && post[j2] == pre[j2]);
    }
    if named_twice(pre, n) {
        let (j1, j2) = choose|j1: int, j2: int| 0 <= j1 < j2 < pre.len() && (#[trigger] pre[j1]).0 == n && (#[trigger] pre[j2]).0 == n;
        assert(post[j1] == pre[j1] && post[j2] == pre[j2]);
    }
    if has_name(post, n) {
        let j = choose|j: int| 0 <= j < post.len() && (#[trigger] post[j]).0 == n;
        assert(post[j] == pre[j]);
    }
    if has_name(pre, n) {
        let j = choose|j: int| 0 <= j < pre.len() && (#[trigger] pre[j]).0 == n;
        assert(post[j] == pre[j]);
    }
}

proof fn lemma_other_shared(input: RelVarsModel, i: int, n: Str, y: Str)
    requires
        0 <= i < input.len(),
        n != input[i].0,
    ensures
        shared(input.take(i + 1), n, y) == shared(input.take(i), n, y),
{
    reveal(shared);
    let pre = input.take(i);
    let post = input.take(i + 1);
    assert(post =~= pre.push(input[i]));
    if shared(pre, n, y) {
        assert forall|j: int| 0 <= j < post.len() && (#[trigger] post[j]).0 == n implies post[j].2.contains(y) by {
            assert(post[j] == pre[j]);
        }
    }
    if shared(post, n, y) {
        assert forall|j: int| 0 <= j < pre.len() && (#[trigger] pre[j]).0 == n implies pre[j].2.contains(y) by {
            assert(post[j] == pre[j]);
        }
    }
}

proof fn lemma_first_stays(input: RelVarsModel, i: int, n: Str)
    requires
        0 <= i < input.len(),
        has_name(input.take(i), n),
    ensures
        first_named(input.take(i + 1), n) == first_named(input.take(i), n),
        input.take(i + 1)[first_named(input.take(i), n)] == input.take(i)[first_named(input.take(i), n)],
{
    let pre = input.take(i);
    let post = input.take(i + 1);
    assert(post =~= pre.push(input[i]));
    lemma_first_named_exists(pre, n);
    let f = first_named(pre, n);
    assert forall|q: int| 0 <= q < f implies (#[trigger] post[q]).0 != n by { assert(post[q] == pre[q]); }
    assert(post[f] == pre[f]);
    lemma_first_named(post, n, f);
}

/// Facts about a name other than the newly added one stay as they were.
proof fn lemma_other_name(input: RelVarsModel, i: int, n: Str)
    requires
        0 <= i < input.len(),
        n != input[i].0,
    ensures
        named_twice(input.take(i + 1), n) == named_twice(input.take(i), n),
        has_name(input.take(i + 1), n) == has_name(input.take(i), n),
        forall|y: Str| shared(input.take(i + 1), n, y) == shared(input.take(i), n, y),
        has_name(input.take(i), n) ==> first_named(input.take(i + 1), n) == first_named(input.take(i), n),
        has_name(input.take(i), n) ==> input.take(i + 1)[first_named(input.take(i), n)] == input.take(i)[first_named(input.take(i), n)],
{
    lemma_other_twice(input, i, n);
    assert forall|y: Str| shared(input.take(i + 1), n, y) == shared(input.take(i), n, y) by {
        lemma_other_shared(input, i, n, y);
    }
    if has_name(input.take(i), n) {
        lemma_first_stays(input, i, n);
    }
}

/// An entry for another name stays correct when an element is added.
proof fn lemma_entry_other(input: RelVarsModel, i: int, e: (Str, Str, Seq<Str>), k: int)
    requires
        0 <= i < input.len(),
        e.0 != input[i].0,
        entry_ok(input.take(i), e, k),
        distinct_names(input.take(i)).is_prefix_of(distinct_names(input.take(i + 1))),
    ensures
        entry_ok(input.take(i + 1), e, k),
{
    reveal(entry_ok);
    let pre = input.take(i);
    lemma_distinct_names(pre);
    assert(has_name(pre, e.0)) by { assert(distinct_names(pre).contains(e.0)) by { assert(distinct_names(pre)[k] == e.0); } }
    lemma_other_name(input, i, e.0);
}

proof fn lemma_check_duplicates_new(input: RelVarsModel, i: int, out: RelVarsModel)
    requires
        0 <= i < input.len(),
        merged(input.take(i), out),
        forall|k: int| 0 <= k < out.len() ==> (#[trigger] out[k]).0 != input[i].0,
    ensures
        merged(input.take(i + 1), out.push(input[i])),
{
    let pre = input.take(i);
    let post = input.take(i + 1);
    let x = input[i];
    assert(post =~= pre.push(x));
    assert(post.drop_last() =~= pre);
    lemma_distinct_names(pre);
    assert(!distinct_names(pre).contains(x.0)) by {
        if distinct_names(pre).contains(x.0) {
            let k = choose|k: int| 0 <= k < distinct_names(pre).len() && distinct_names(pre)[k] == x.0;
            assert(entry_ok(pre, out[k], k));
            reveal(entry_ok);
            assert(out[k].0 == x.0);
        }
    }
    assert(distinct_names(post) == distinct_names(pre).push(x.0));
    assert(distinct_names(pre).is_prefix_of(distinct_names(post)));
    assert(!has_name(pre, x.0));
    let o2 = out.push(x);
    assert forall|k: int| 0 <= k < o2.len() implies entry_ok(post, #[trigger] o2[k], k) by {
        if k == out.len() {
            reveal(entry_ok);
            let n = x.0;
            assert forall|j: int| 0 <= j < i implies (#[trigger] post[j]).0 != n by {
                assert(post[j] == pre[j]);
                if pre[j].0 == n { assert(has_name(pre, n)); }
            }
            lemma_first_named(post, n, i);
            assert(!named_twice(post, n)) by {
                if named_twice(post, n) {
                    let (j1, j2) = choose|j1: int, j2: int| 0 <= j1 < j2 < post.len() && (#[trigger] post[j1]).0 == n && (#[trigger] post[j2]).0 == n;
                    assert(post[j1] == pre[j1]);
                    assert(has_name(pre, n));
                }
            }
        } else {
            assert(o2[k] == out[k]);
            assert(entry_ok(pre, out[k], k));
            assert(out[k].0 != x.0);
            lemma_entry_other(input, i, out[k], k);
        }
    }
}

#[verifier::rlimit(40)]
proof fn lemma_check_duplicates_merge(input: RelVarsModel, i: int, out: RelVarsModel, d: int, values: Seq<Str>)
    requires
        0 <= i < input.len(),
        merged(input.take(i), out),
        0 <= d < out.len(),
        out[d].0 == input[i].0,
        values.no_duplicates(),
        forall|y: Str| values.contains(y) <==> in_all(seq![out[d].2, input[i].2], y),
    ensures
        merged(input.take(i + 1), out.update(d, (out[d].0, out[d].1, values))),
{
    let pre = input.take(i);
    let post = input.take(i + 1);
    let x = input[i];
    assert(post =~= pre.push(x));
    assert(post.drop_last() =~= pre);
    lemma_distinct_names(pre);
    assert(entry_ok(pre, out[d], d));
    assert(distinct_names(pre).contains(x.0)) by {
        reveal(entry_ok);
        assert(out[d].0 == distinct_names(pre)[d]);
    }
    assert(distinct_names(post) == distinct_names(pre));
    assert(distinct_names(pre).is_prefix_of(distinct_names(post)));
    let o2 = out.update(d, (out[d].0, out[d].1, values));
    assert forall|k: int| 0 <= k < o2.len() implies entry_ok(post, #[trigger] o2[k], k) by {
        if k == d {
            lemma_entry_merged(input, i, out[d], d, values);
        } else {
            assert(o2[k] == out[k]);
            assert(entry_ok(pre, out[k], k));
            assert(out[k].0 != x.0) by {
                reveal(entry_ok);
                assert(distinct_names(pre)[k] == out[k].0 && distinct_names(pre)[d] == x.0);
            }
            lemma_entry_other(input, i, out[k], k);
        }
    }
}

#[verifier::rlimit(40)]
proof fn lemma_entry_merged(input: RelVarsModel, i: int, e: (Str, Str, Seq<Str>), d: int, values: Seq<Str>)
    requires
        0 <= i < input.len(),
        e.0 == input[i].0,
        entry_ok(input.take(i), e, d),
        distinct_names(input.take(i + 1)) == distinct_names(input.take(i)),
        values.no_duplicates(),
        forall|y: Str| values.contains(y) <==> in_all(seq![e.2, input[i].2], y),
    ensures
        entry_ok(input.take(i + 1), (e.0, e.1, values), d),
{
    reveal(entry_ok);
    let pre = input.take(i);
    let post = input.take(i + 1);
    let x = input[i];
    let n = e.0;
    assert(post =~= pre.push(x));
    lemma_distinct_names(pre);
    assert(has_name(pre, n)) by { assert(distinct_names(pre).contains(n)) by { assert(distinct_names(pre)[d] == n); } }
    lemma_first_named_exists(pre, n);
    let f = first_named(pre, n);
    lemma_first_stays(input, i, n);
    assert(named_twice(post, n)) by {
        assert(post[f].0 == n && post[i].0 == n && f < i);
    }
    assert forall|y: Str| #[trigger] values.contains(y) <==> shared(post, n, y) by {
        reveal(shared);
        let both = seq![e.2, x.2];
        assert(in_all(both, y) <==> (e.2.contains(y) && x.2.contains(y))) by {
            if e.2.contains(y) && x.2.contains(y) {
                assert forall|q: int| 0 <= q < both.len() implies (#[trigger] both[q]).contains(y) by {
                    if q == 0 { assert(both[q] == e.2); } else { assert(both[q] == x.2); }
                }
            }
            if in_all(both, y) { assert(both[0] == e.2); assert(both[1] == x.2); }
        }
        assert(e.2.contains(y) <==> shared(pre, n, y)) by {
            if !named_twice(pre, n) {
                if e.2.contains(y) {
                    assert forall|j: int| 0 <= j < pre.len() && (#[trigger] pre[j]).0 == n implies pre[j].2.contains(y) by {
                        if j != f {
                            if j < f { assert(pre[j].0 != n); }
                            else { assert(named_twice(pre, n)) by { assert(pre[f].0 == n && pre[j].0 == n); } }
                        }
                    }
                }
                if shared(pre, n, y) { assert(pre[f].0 == n); }
            }
        }
        if shared(post, n, y) {
            assert forall|j: int| 0 <= j < pre.len() && (#[trigger] pre[j]).0 == n implies pre[j].2.contains(y) by {
                assert(post[j] == pre[j]);
            }
            assert(post[i].2.contains(y));
        }
        if values.contains(y) {
            assert forall|j: int| 0 <= j < post.len() && (#[trigger] post[j]).0 == n implies post[j].2.contains(y) by {
                if j < i { assert(post[j] == pre[j]); } else { assert(post[j] == x); }
            }
        }
    }
}

} // verus!
