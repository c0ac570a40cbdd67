//! Decomposing a slash-separated path into file name, base name and
//! extension bucket: everything after the last separator, the head before
//! the first dot, and the tail after the last dot.

use vstd::prelude::*;

verus! {

/// Everything after the last occurrence of `sep`; the whole of `s` when
/// `sep` does not occur.
pub open spec fn tail_after_last(s: Seq<char>, sep: char) -> Seq<char>
    decreases s.len(),
{
    if s.len() == 0 {
        s
    } else if s.last() == sep {
        Seq::<char>::empty()
    } else {
        tail_after_last(s.drop_last(), sep).push(s.last())
    }
}

/// Everything before the first occurrence of `sep`; the whole of `s` when
/// `sep` does not occur.
pub open spec fn head_before_first(s: Seq<char>, sep: char) -> Seq<char>
    decreases s.len(),
{
    if s.len() == 0 {
        s
    } else if s[0] == sep {
        Seq::<char>::empty()
    } else {
        seq![s[0]] + head_before_first(s.drop_first(), sep)
    }
}

proof fn lemma_tail_after_last_is_subrange(s: Seq<char>, sep: char, cut: int)
    requires
        0 <= cut <= s.len(),
        forall|j: int| cut <= j < s.len() ==> s[j] != sep,
        cut > 0 ==> s[cut - 1] == sep,
    ensures
        tail_after_last(s, sep) == s.subrange(cut, s.len() as int),
    decreases s.len(),
{
    if s.len() == 0 {
        assert(s.subrange(0, 0) =~= s);
    } else if s.last() == sep {
        assert(cut == s.len());
        assert(tail_after_last(s, sep) =~= s.subrange(cut, s.len() as int));
    } else {
        assert(cut < s.len());
        lemma_tail_after_last_is_subrange(s.drop_last(), sep, cut);
        assert(tail_after_last(s.drop_last(), sep).push(s.last()) =~= s.subrange(
            cut,
            s.len() as int,
        ));
    }
}

proof fn lemma_head_before_first_is_subrange(s: Seq<char>, sep: char, end: int)
    requires
        0 <= end <= s.len(),
        forall|j: int| 0 <= j < end ==> s[j] != sep,
        end < s.len() ==> s[end] == sep,
    ensures
        head_before_first(s, sep) == s.subrange(0, end),
    decreases s.len(),
{
    if s.len() == 0 {
        assert(s.subrange(0, 0) =~= s);
    } else if s[0] == sep {
        assert(end == 0);
        assert(head_before_first(s, sep) =~= s.subrange(0, 0));
    } else {
        assert(end >= 1);
        lemma_head_before_first_is_subrange(s.drop_first(), sep, end - 1);
        assert(s.drop_first().subrange(0, end - 1) =~= s.subrange(1, end));
        assert(seq![s[0]] + s.subrange(1, end) =~= s.subrange(0, end));
    }
}

/// Copies the part of `s` after the last occurrence of `sep`; the whole of
/// `s` when `sep` does not occur.
#[verifier::loop_isolation(false)]
pub fn after_last(s: &str, sep: char) -> (r: String)
    ensures
        r@ == tail_after_last(s@, sep),
{
    let n = s.unicode_len();
    let mut cut: usize = 0;
    let mut i: usize = 0;
    while i < n
        invariant
            i <= n,
            cut <= i,
            cut > 0 ==> s@[cut as int - 1] == sep,
            forall|j: int| cut <= j < i ==> s@[j] != sep,
        decreases n - i,
    {
        if s.get_char(i) == sep {
            cut = i + 1;
        }
        i = i + 1;
    }
    proof {
        lemma_tail_after_last_is_subrange(s@, sep, cut as int);
    }
    let sub = s.substring_char(cut, n);
    sub.to_owned()
}

/// Copies the part of `s` before the first occurrence of `sep`; the whole
/// of `s` when `sep` does not occur.
#[verifier::loop_isolation(false)]
pub fn before_first(s: &str, sep: char) -> (r: String)
    ensures
        r@ == head_before_first(s@, sep),
{
    let end = first_index_of(s, sep);
    proof {
        lemma_head_before_first_is_subrange(s@, sep, end as int);
    }
    let sub = s.substring_char(0, end);
    sub.to_owned()
}

#[verifier::loop_isolation(false)]
fn first_index_of(s: &str, sep: char) -> (r: usize)
    ensures
        r <= s@.len(),
        forall|j: int| 0 <= j < r ==> s@[j] != sep,
        r < s@.len() ==> s@[r as int] == sep,
{
    let n = s.unicode_len();
    let mut i: usize = 0;
    while i < n
        invariant
            i <= n,
            forall|j: int| 0 <= j < i ==> s@[j] != sep,
        decreases n - i,
    {
        if s.get_char(i) == sep {
            return i;
        }
        i = i + 1;
    }
    n
}

/// Two string slices are equal exactly when they hold the same characters.
#[verifier::loop_isolation(false)]
pub fn str_eq(a: &str, b: &str) -> (r: bool)
    ensures
        r == (a@ == b@),
{
    let n = a.unicode_len();
    if n != b.unicode_len() {
        return false;
    }
    let mut i: usize = 0;
    while i < n
        invariant
            i <= n,
            n == a@.len() == b@.len(),
            forall|j: int| 0 <= j < i ==> a@[j] == b@[j],
        decreases n - i,
    {
        if a.get_char(i) != b.get_char(i) {
            return false;
        }
        i = i + 1;
    }
    proof {
        assert(a@ =~= b@);
    }
    true
}

} // verus!
