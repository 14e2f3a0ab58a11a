//! Small operations on strings and lists of strings.
use vstd::prelude::*;
use crate::datastructures::domain::Str;

verus! {

/// Whether a name is a variable (it holds a `?`).
pub open spec fn is_var(s: Str) -> bool {
    s.contains('?')
}

/// Whether `s` holds the character `c`.
pub fn has_char(s: &String, c: char) -> (res: bool)
    ensures
        res == s@.contains(c),
{
    let st = s.as_str();
    let n = st.unicode_len();
    let mut i: usize = 0;
    while i < n
        invariant
            n == s@.len(),
            st@ == s@,
            i <= n,
            forall|j: int| 0 <= j < i ==> s@[j] != c,
        decreases n - i,
    {
        if st.get_char(i) == c {
            assert(s@[i as int] == c);
            return true;
        }
        i = i + 1;
    }
    false
}

/// Whether a name is a variable (it holds a `?`).
pub fn is_variable(s: &String) -> (res: bool)
    ensures
        res == is_var(s@),
{
    has_char(s, '?')
}

/// Whether a list of strings holds a string.
pub fn contains_string(v: &Vec<String>, x: &String) -> (res: bool)
    ensures
        res == v.deep_view().contains(x@),
{
    let mut i: usize = 0;
    while i < v.len()
        invariant
            i <= v.len(),
            forall|j: int| 0 <= j < i ==> v@[j]@ != x@,
        decreases v.len() - i,
    {
        if v[i] == *x {
            assert(v.deep_view()[i as int] == x@);
            return true;
        }
        i = i + 1;
    }
    assert forall|j: int| 0 <= j < v.deep_view().len() implies v.deep_view()[j] != x@ by {
        assert(v.deep_view()[j] == v@[j]@);
    }
    false
}

/// A fresh string equal to a literal.
pub fn string_of(s: &str) -> (res: String)
    ensures
        res@ == s@,
{
    String::from_str(s)
}

} // verus!

verus! {

/// What a sequence holds after a push.
pub proof fn lemma_push_contains<A>(s: Seq<A>, a: A, y: A)
    ensures
        s.push(a).contains(y) <==> (s.contains(y) || a == y),
{
    if s.contains(y) {
        let k = choose|k: int| 0 <= k < s.len() && s[k] == y;
        assert(s.push(a)[k] == y);
    }
    if a == y {
        assert(s.push(a)[s.len() as int] == y);
    }
    if s.push(a).contains(y) {
        let k = choose|k: int| 0 <= k < s.push(a).len() && s.push(a)[k] == y;
        if k < s.len() {
            assert(s[k] == y);
        }
    }
}

/// What a prefix holds, one element further.
pub proof fn lemma_take_one_more<A>(s: Seq<A>, i: int)
    requires
        0 <= i < s.len(),
    ensures
        s.take(i + 1) == s.take(i).push(s[i]),
{
    assert(s.take(i + 1) =~= s.take(i).push(s[i]));
}

/// A push keeps a sequence free of duplicates when the new element is new.
pub proof fn lemma_push_no_duplicates<A>(s: Seq<A>, a: A)
    requires
        s.no_duplicates(),
        !s.contains(a),
    ensures
        s.push(a).no_duplicates(),
{
    assert forall|i: int, j: int| 0 <= i < s.push(a).len() && 0 <= j < s.push(a).len() && i != j implies s.push(a)[i] != s.push(a)[j] by {
        if i == s.len() as int {
            assert(s[j] == s.push(a)[j]);
        } else if j == s.len() as int {
            assert(s[i] == s.push(a)[i]);
        }
    }
}

} // verus!
