//! Substring and character search over text, the foundation the block
//! locator and the header extractor are built on.

use vstd::prelude::*;

verus! {

/// The pattern `pat` occurs in `t` at position `i`.
pub open spec fn occurs_at(t: Seq<char>, pat: Seq<char>, i: int) -> bool {
    0 <= i && i + pat.len() <= t.len() && t.subrange(i, i + pat.len() as int) == pat
}

/// `i` is the position of the first occurrence of `pat` in `t`.
pub open spec fn first_occurrence(t: Seq<char>, pat: Seq<char>, i: int) -> bool {
    occurs_at(t, pat, i) && forall|j: int| 0 <= j < i ==> !occurs_at(t, pat, j)
}

/// `pat` occurs somewhere in `t`.
pub open spec fn has_occurrence(t: Seq<char>, pat: Seq<char>) -> bool {
    exists|i: int| occurs_at(t, pat, i)
}

/// Whether `pat` occurs at `i` is decided by comparing the characters one
/// by one; the loop below relies on this.
proof fn lemma_occurs_at_pointwise(t: Seq<char>, pat: Seq<char>, i: int)
    requires
        0 <= i,
        i + pat.len() <= t.len(),
        forall|k: int| 0 <= k < pat.len() ==> t[i + k] == pat[k],
    ensures
        occurs_at(t, pat, i),
{
    assert(t.subrange(i, i + pat.len() as int) =~= pat);
}

/// The position of the first occurrence of `pat` in `t`, if any, as a
/// recursive function over the text.  The contracts of the locator are
/// stated in terms of this function.
pub open spec fn find_at(t: Seq<char>, pat: Seq<char>) -> Option<int>
    decreases t.len(),
{
    if occurs_at(t, pat, 0) {
        Some(0)
    } else if t.len() == 0 {
        None
    } else {
        match find_at(t.drop_first(), pat) {
            Some(i) => Some(i + 1),
            None => None,
        }
    }
}

/// Occurrences in the tail of a text are occurrences of the text, one
/// position further on.
proof fn lemma_occurs_shift(t: Seq<char>, pat: Seq<char>, j: int)
    requires
        t.len() > 0,
        0 <= j,
    ensures
        occurs_at(t.drop_first(), pat, j) <==> occurs_at(t, pat, j + 1),
{
    if j + 1 + pat.len() <= t.len() {
        assert(t.drop_first().subrange(j, j + pat.len() as int) =~= t.subrange(
            j + 1,
            j + 1 + pat.len() as int,
        ));
    }
}

/// `find_at` returns the first occurrence when there is one, and `None`
/// exactly when the pattern does not occur.
pub proof fn lemma_find_at_spec(t: Seq<char>, pat: Seq<char>)
    ensures
        match find_at(t, pat) {
            Some(i) => first_occurrence(t, pat, i),
            None => !has_occurrence(t, pat),
        },
    decreases t.len(),
{
    if occurs_at(t, pat, 0) {
    } else if t.len() == 0 {
        assert forall|i: int| !occurs_at(t, pat, i) by {
            if i != 0 {
                assert(!(0 <= i && i + pat.len() <= 0));
            }
        }
    } else {
        lemma_find_at_spec(t.drop_first(), pat);
        match find_at(t.drop_first(), pat) {
            Some(i) => {
                lemma_occurs_shift(t, pat, i);
                assert forall|j: int| 0 <= j < i + 1 implies !occurs_at(t, pat, j) by {
                    if j > 0 {
                        lemma_occurs_shift(t, pat, j - 1);
                    }
                }
            },
            None => {
                assert forall|i: int| !occurs_at(t, pat, i) by {
                    if i > 0 {
                        lemma_occurs_shift(t, pat, i - 1);
                    }
                }
            },
        }
    }
}

/// The first occurrence determines `find_at`.
pub proof fn lemma_first_occurrence_find(t: Seq<char>, pat: Seq<char>, i: int)
    requires
        first_occurrence(t, pat, i),
    ensures
        find_at(t, pat) == Some(i),
{
    lemma_find_at_spec(t, pat);
    match find_at(t, pat) {
        Some(k) => {
            if k < i {
            } else if i < k {
            }
        },
        None => {
            assert(has_occurrence(t, pat));
        },
    }
}

/// When the pattern occurs nowhere, `find_at` says so.
pub proof fn lemma_no_occurrence_find(t: Seq<char>, pat: Seq<char>)
    requires
        !has_occurrence(t, pat),
    ensures
        find_at(t, pat) is None,
{
    lemma_find_at_spec(t, pat);
    if find_at(t, pat) is Some {
        assert(has_occurrence(t, pat));
    }
}

/// `i` is the position of the first occurrence of the character `c` in `t`.
pub open spec fn first_char_at(t: Seq<char>, c: char, i: int) -> bool {
    0 <= i < t.len() && t[i] == c && forall|j: int| 0 <= j < i ==> t[j] != c
}

/// The position of the first occurrence of the character `c` in `t`, if
/// any, as a recursive function over the text.
pub open spec fn find_char(t: Seq<char>, c: char) -> Option<int>
    decreases t.len(),
{
    if t.len() == 0 {
        None
    } else if t[0] == c {
        Some(0)
    } else {
        match find_char(t.drop_first(), c) {
            Some(i) => Some(i + 1),
            None => None,
        }
    }
}

/// `find_char` returns the first occurrence of the character when there is
/// one, and `None` exactly when the character does not occur.
pub proof fn lemma_find_char_spec(t: Seq<char>, c: char)
    ensures
        match find_char(t, c) {
            Some(i) => first_char_at(t, c, i),
            None => forall|k: int| 0 <= k < t.len() ==> t[k] != c,
        },
    decreases t.len(),
{
    if t.len() == 0 {
    } else if t[0] == c {
    } else {
        lemma_find_char_spec(t.drop_first(), c);
        assert(forall|k: int| 1 <= k < t.len() ==> t[k] == t.drop_first()[k - 1]);
        match find_char(t.drop_first(), c) {
            Some(i) => {
                assert forall|j: int| 0 <= j < i + 1 implies t[j] != c by {
                    if j > 0 {
                        assert(t[j] == t.drop_first()[j - 1]);
                    }
                }
            },
            None => {
                assert forall|k: int| 0 <= k < t.len() implies t[k] != c by {
                    if k > 0 {
                        assert(t[k] == t.drop_first()[k - 1]);
                    }
                }
            },
        }
    }
}

/// The first occurrence of a character determines `find_char`.
pub proof fn lemma_first_char_find(t: Seq<char>, c: char, i: int)
    requires
        first_char_at(t, c, i),
    ensures
        find_char(t, c) == Some(i),
{
    lemma_find_char_spec(t, c);
}

/// When the character occurs nowhere, `find_char` says so.
pub proof fn lemma_no_char_find(t: Seq<char>, c: char)
    requires
        forall|k: int| 0 <= k < t.len() ==> t[k] != c,
    ensures
        find_char(t, c) is None,
{
    lemma_find_char_spec(t, c);
}

/// Finds the position of the first occurrence of the character `c` in `s`.
pub fn find_char_pos(s: &str, c: char) -> (r: Option<usize>)
    ensures
        match r {
            Some(i) => find_char(s@, c) == Some(i as int),
            None => find_char(s@, c) is None,
        },
{
    let n = s.unicode_len();
    let mut i: usize = 0;
    while i < n
        invariant
            n == s@.len(),
            0 <= i <= n,
            forall|j: int| 0 <= j < i ==> s@[j] != c,
        decreases n - i,
    {
        if s.get_char(i) == c {
            proof {
                lemma_first_char_find(s@, c, i as int);
            }
            return Some(i);
        }
        i += 1;
    }
    proof {
        lemma_no_char_find(s@, c);
    }
    None
}

/// Decides whether two pieces of text hold the same characters.
pub fn str_eq(a: &str, b: &str) -> (r: bool)
    ensures
        r == (a@ == b@),
{
    let n = a.unicode_len();
    let m = b.unicode_len();
    if n != m {
        return false;
    }
    let mut i: usize = 0;
    while i < n
        invariant
            n == a@.len(),
            n == b@.len(),
            0 <= i <= n,
            forall|j: int| 0 <= j < i ==> a@[j] == b@[j],
        decreases n - i,
    {
        if a.get_char(i) != b.get_char(i) {
            return false;
        }
        i += 1;
    }
    proof {
        assert(a@ =~= b@);
    }
    true
}

/// Compares `pat` against the characters of `text` starting at `i`.
fn match_at(text: &str, pat: &str, i: usize) -> (r: bool)
    ensures
        r == occurs_at(text@, pat@, i as int),
{
    let n = text.unicode_len();
    let m = pat.unicode_len();
    if m > n || i > n - m {
        return false;
    }
    let mut k: usize = 0;
    while k < m
        invariant
            n == text@.len(),
            m == pat@.len(),
            i + m <= n,
            0 <= k <= m,
            forall|q: int| 0 <= q < k ==> text@[i + q] == pat@[q],
        decreases m - k,
    {
        if text.get_char(i + k) != pat.get_char(k) {
            return false;
        }
        k += 1;
    }
    proof {
        lemma_occurs_at_pointwise(text@, pat@, i as int);
    }
    true
}

/// Finds the position of the first occurrence of `pat` in `text`.
pub fn find_sub(text: &str, pat: &str) -> (r: Option<usize>)
    ensures
        match r {
            Some(i) => first_occurrence(text@, pat@, i as int),
            None => !has_occurrence(text@, pat@),
        },
{
    let n = text.unicode_len();
    let m = pat.unicode_len();
    if m > n {
        proof {
            assert forall|i: int| !occurs_at(text@, pat@, i) by {}
        }
        return None;
    }
    if m == 0 {
        proof {
            assert(text@.subrange(0, 0) =~= pat@);
        }
        return Some(0);
    }
    let mut i: usize = 0;
    loop
        invariant
            n == text@.len(),
            m == pat@.len(),
            1 <= m <= n,
            0 <= i <= n - m + 1,
            forall|j: int| 0 <= j < i ==> !occurs_at(text@, pat@, j),
        decreases n - m + 1 - i,
    {
        if i > n - m {
            proof {
                assert forall|j: int| !occurs_at(text@, pat@, j) by {
                    if 0 <= j < i {
                    } else {
                        assert(!(j + pat@.len() <= text@.len()) || j < 0);
                    }
                }
            }
            return None;
        }
        if match_at(text, pat, i) {
            return Some(i);
        }
        i += 1;
    }
}

} // verus!
