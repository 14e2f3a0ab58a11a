//! The character level of the HDDL reader: comments, blanks, names and fixed words.
use vstd::prelude::*;
use vstd::std_specs::iter::IteratorSpec;
use crate::datastructures::domain::Str;

verus! {

broadcast use vstd::string::axiom_spec_iter, vstd::string::next_postcondition;

/// A blank: space, tab, line feed or carriage return.
pub open spec fn is_blank(c: char) -> bool {
    c == ' ' || c == '\t' || c == '\n' || c == '\r'
}

/// An ASCII letter or digit.
pub open spec fn is_alnum(c: char) -> bool {
    ('a' <= c && c <= 'z') || ('A' <= c && c <= 'Z') || ('0' <= c && c <= '9')
}

/// A character of a name: an ASCII letter or digit, `_`, `-` or `?`.
pub open spec fn is_name_char(c: char) -> bool {
    is_alnum(c) || c == '_' || c == '-' || c == '?'
}

/// The first position at or after `i` that holds no blank (or the end).
pub open spec fn blanks_end(s: Seq<char>, i: int) -> int
    decreases s.len() - i,
{
    if 0 <= i < s.len() && is_blank(s[i]) {
        blanks_end(s, i + 1)
    } else {
        i
    }
}

/// The first position at or after `i` that holds no name character (or the end).
pub open spec fn name_end(s: Seq<char>, i: int) -> int
    decreases s.len() - i,
{
    if 0 <= i < s.len() && is_name_char(s[i]) {
        name_end(s, i + 1)
    } else {
        i
    }
}

/// The first position at or after `i` that holds no ASCII letter or digit (or the end).
pub open spec fn alnum_end(s: Seq<char>, i: int) -> int
    decreases s.len() - i,
{
    if 0 <= i < s.len() && is_alnum(s[i]) {
        alnum_end(s, i + 1)
    } else {
        i
    }
}

/// The longest non-empty name that starts at `i`, and the position after it.
pub open spec fn name_at(s: Seq<char>, i: int) -> Option<(Str, int)> {
    let e = name_end(s, i);
    if i < e {
        Some((s.subrange(i, e), e))
    } else {
        None
    }
}

/// The longest non-empty run of ASCII letters and digits that starts at `i`.
pub open spec fn alnum_at(s: Seq<char>, i: int) -> Option<(Str, int)> {
    let e = alnum_end(s, i);
    if i < e {
        Some((s.subrange(i, e), e))
    } else {
        None
    }
}

/// Whether the text `t` stands in `s` at position `i`.
pub open spec fn word_at(s: Seq<char>, i: int, t: Seq<char>) -> bool {
    0 <= i && i + t.len() <= s.len() && s.subrange(i, i + t.len()) == t
}

/// The position after the text `t` where it stands at `i`.
pub open spec fn after_word(s: Seq<char>, i: int, t: Seq<char>) -> Option<int> {
    if word_at(s, i, t) {
        Some(i + t.len())
    } else {
        None
    }
}

/// The position of the first line feed at or after `i` (or the end).
pub open spec fn line_end(s: Seq<char>, i: int) -> int
    decreases s.len() - i,
{
    if 0 <= i < s.len() && s[i] != '\n' {
        line_end(s, i + 1)
    } else {
        i
    }
}

/// The text from `i` on with each comment taken out: a comment runs from a
/// `;` up to the next line feed, which stays. `None` where a comment has no
/// line feed after it.
pub open spec fn uncommented_from(s: Seq<char>, i: int) -> Option<Seq<char>>
    decreases s.len() - i,
{
    if i < 0 || i >= s.len() {
        Some(Seq::empty())
    } else if s[i] == ';' {
        let k = line_end(s, i);
        if k < s.len() && i < k {
            uncommented_from(s, k)
        } else {
            None
        }
    } else {
        match uncommented_from(s, i + 1) {
            Some(r) => Some(seq![s[i]] + r),
            None => None,
        }
    }
}

/// The whole text with its comments taken out.
pub open spec fn uncommented(s: Seq<char>) -> Option<Seq<char>> {
    uncommented_from(s, 0)
}

/// A text with no `;` in it loses nothing when its comments are taken out.
pub proof fn law_text_without_comments_is_kept(s: Seq<char>)
    requires
        !s.contains(';'),
    ensures
        uncommented(s) == Some(s),
{
    lemma_kept_from(s, 0);
    assert(s.subrange(0, s.len() as int) =~= s);
}

proof fn lemma_kept_from(s: Seq<char>, i: int)
    requires
        !s.contains(';'),
        0 <= i <= s.len(),
    ensures
        uncommented_from(s, i) == Some(s.subrange(i, s.len() as int)),
    decreases s.len() - i,
{
    if i < s.len() {
        assert(s[i] != ';');
        lemma_kept_from(s, i + 1);
        assert(seq![s[i]] + s.subrange(i + 1, s.len() as int) =~= s.subrange(i, s.len() as int));
    } else {
        assert(s.subrange(i, s.len() as int) =~= Seq::<char>::empty());
    }
}

/// The characters of a text, in order.
pub fn chars_of(t: &str) -> (res: Vec<char>)
    ensures
        res@ == t@,
{
    let mut out: Vec<char> = Vec::new();
    let mut it = t.chars();
    loop
        invariant
            out@ + it.remaining() == t@,
            it.obeys_prophetic_iter_laws(),
            it.decrease() is Some,
        decreases it.decrease()->0,
    {
        let ghost before = it.remaining();
        match it.next() {
            Some(c) => {
                out.push(c);
                assert(out@ + it.remaining() =~= t@) by {
                    assert(before =~= seq![c] + it.remaining());
                }
            },
            None => {
                assert(out@ =~= t@);
                return out;
            },
        }
    }
}

/// The character `c` added at the end of `s` (std's `String::push`).
#[verifier::external_body]
fn push_char(s: &mut String, c: char)
    ensures
        final(s)@ == old(s)@.push(c),
{
    s.push(c);
}

/// The first position at or after `i` that holds no blank.
pub fn skip_blanks(s: &Vec<char>, i: usize) -> (res: usize)
    requires
        i <= s.len(),
    ensures
        res == blanks_end(s@, i as int),
        i <= res <= s.len(),
{
    let mut j = i;
    while j < s.len() && (s[j] == ' ' || s[j] == '\t' || s[j] == '\n' || s[j] == '\r')
        invariant
            i <= j <= s.len(),
            blanks_end(s@, j as int) == blanks_end(s@, i as int),
        decreases s.len() - j,
    {
        j = j + 1;
    }
    j
}

fn name_char(c: char) -> (res: bool)
    ensures
        res == is_name_char(c),
{
    ('a' <= c && c <= 'z') || ('A' <= c && c <= 'Z') || ('0' <= c && c <= '9') || c == '_'
        || c == '-' || c == '?'
}

fn alnum_char(c: char) -> (res: bool)
    ensures
        res == is_alnum(c),
{
    ('a' <= c && c <= 'z') || ('A' <= c && c <= 'Z') || ('0' <= c && c <= '9')
}

/// The text of `s` between two positions, as a string.
pub fn text_between(s: &Vec<char>, i: usize, e: usize) -> (res: String)
    requires
        i <= e <= s.len(),
    ensures
        res@ == s@.subrange(i as int, e as int),
{
    let mut out = String::new();
    let mut j = i;
    while j < e
        invariant
            i <= j <= e <= s.len(),
            out@ == s@.subrange(i as int, j as int),
        decreases e - j,
    {
        push_char(&mut out, s[j]);
        assert(s@.subrange(i as int, j + 1) =~= s@.subrange(i as int, j as int).push(s@[j as int]));
        j = j + 1;
    }
    out
}

/// The longest non-empty name at `i`, and the position after it.
pub fn read_name(s: &Vec<char>, i: usize) -> (res: Option<(String, usize)>)
    requires
        i <= s.len(),
    ensures
        match res {
            Some((w, j)) => name_at(s@, i as int) == Some((w@, j as int)) && i < j <= s.len(),
            None => name_at(s@, i as int) is None,
        },
{
    let mut j = i;
    while j < s.len() && name_char(s[j])
        invariant
            i <= j <= s.len(),
            name_end(s@, j as int) == name_end(s@, i as int),
        decreases s.len() - j,
    {
        j = j + 1;
    }
    if i < j {
        Some((text_between(s, i, j), j))
    } else {
        None
    }
}

/// The longest non-empty run of ASCII letters and digits at `i`.
pub fn read_alnum(s: &Vec<char>, i: usize) -> (res: Option<(String, usize)>)
    requires
        i <= s.len(),
    ensures
        match res {
            Some((w, j)) => alnum_at(s@, i as int) == Some((w@, j as int)) && i < j <= s.len(),
            None => alnum_at(s@, i as int) is None,
        },
{
    let mut j = i;
    while j < s.len() && alnum_char(s[j])
        invariant
            i <= j <= s.len(),
            alnum_end(s@, j as int) == alnum_end(s@, i as int),
        decreases s.len() - j,
    {
        j = j + 1;
    }
    if i < j {
        Some((text_between(s, i, j), j))
    } else {
        None
    }
}

/// The position after the text `t` where it stands at `i`.
pub fn expect(s: &Vec<char>, i: usize, t: &str) -> (res: Option<usize>)
    requires
        i <= s.len(),
    ensures
        match res {
            Some(j) => after_word(s@, i as int, t@) == Some(j as int) && i <= j <= s.len(),
            None => after_word(s@, i as int, t@) is None,
        },
{
    let n = t.unicode_len();
    if n > s.len() - i {
        return None;
    }
    let mut k: usize = 0;
    while k < n
        invariant
            n == t@.len(),
            i + n <= s.len(),
            k <= n,
            forall|m: int| 0 <= m < k ==> s@[i + m] == t@[m],
        decreases n - k,
    {
        if s[i + k] != t.get_char(k) {
            assert(s@.subrange(i as int, i + n)[k as int] != t@[k as int]);
            return None;
        }
        k = k + 1;
    }
    assert(s@.subrange(i as int, i + n) =~= t@);
    Some(i + n)
}

/// The text with its comments taken out; `None` where a comment has no
/// line feed after it.
pub fn strip_comments(s: &Vec<char>) -> (res: Option<Vec<char>>)
    ensures
        match res {
            Some(v) => uncommented(s@) == Some(v@),
            None => uncommented(s@) is None,
        },
{
    let mut out: Vec<char> = Vec::new();
    let mut i: usize = 0;
    while i < s.len()
        invariant
            i <= s.len(),
            match uncommented_from(s@, 0) {
                Some(r) => uncommented_from(s@, i as int) matches Some(q) && r == out@ + q,
                None => uncommented_from(s@, i as int) is None,
            },
        decreases s.len() - i,
    {
        if s[i] == ';' {
            let mut k = i;
            while k < s.len() && s[k] != '\n'
                invariant
                    i <= k <= s.len(),
                    line_end(s@, k as int) == line_end(s@, i as int),
                decreases s.len() - k,
            {
                k = k + 1;
            }
            if k >= s.len() {
                return None;
            }
            i = k;
        } else {
            let ghost q = uncommented_from(s@, i + 1);
            out.push(s[i]);
            proof {
                if let Some(r) = q {
                    assert(seq![s@[i as int]] + r =~= seq![s@[i as int]] + r);
                }
            }
            i = i + 1;
            proof {
                if let Some(r) = uncommented_from(s@, 0) {
                    if let Some(q2) = uncommented_from(s@, i as int) {
                        assert(r =~= out@ + q2);
                    }
                }
            }
        }
    }
    proof {
        if let Some(r) = uncommented_from(s@, 0) {
            assert(r =~= out@);
        }
    }
    Some(out)
}

} // verus!
