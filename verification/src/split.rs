//! Splitting a text at the last occurrence of a separator.

use vstd::prelude::*;
use vstd::string::StrSliceExecFns;

verus! {

/// Index of the last occurrence of `sep` in `s`, or `None` when `s` holds no `sep`.
pub open spec fn last_index_of(s: Seq<char>, sep: char) -> Option<int>
    decreases s.len(),
{
    if s.len() == 0 {
        None
    } else if s.last() == sep {
        Some(s.len() - 1)
    } else {
        last_index_of(s.drop_last(), sep)
    }
}

/// The text before and the text after the last `sep` of `s`.
pub open spec fn rsplit_once_spec(s: Seq<char>, sep: char) -> Option<(Seq<char>, Seq<char>)> {
    match last_index_of(s, sep) {
        None => None,
        Some(i) => Some((s.take(i), s.skip(i + 1))),
    }
}

/// Splits `s` at its last `sep`.
pub fn rsplit_once<'a>(s: &'a str, sep: char) -> (r: Option<(&'a str, &'a str)>)
    ensures
        match r {
            None => rsplit_once_spec(s@, sep) is None,
            Some((head, tail)) => rsplit_once_spec(s@, sep) == Some((head@, tail@)),
        },
{
    let n: usize = s.unicode_len();
    let mut found: Option<usize> = None;
    let mut i: usize = 0;
    for c in it: s.chars()
        invariant
            it.seq() == s@,
            n == s@.len(),
            i == it.index(),
            match found {
                None => last_index_of(s@.take(i as int), sep) is None,
                Some(k) => last_index_of(s@.take(i as int), sep) == Some(k as int),
            },
    {
        assert(s@.take(i + 1).drop_last() == s@.take(i as int));
        if c == sep {
            found = Some(i);
        }
        i = i + 1;
    }
    assert(s@.take(i as int) == s@);
    match found {
        None => None,
        Some(k) => {
            proof {
                lemma_last_index_of(s@, sep);
            }
            let head = s.substring_char(0, k);
            let tail = s.substring_char(k + 1, n);
            Some((head, tail))
        },
    }
}

/// The index that `last_index_of` reports lies inside `s` and holds `sep`,
/// and no `sep` stands after it; it reports none only when `s` holds no `sep`.
pub proof fn lemma_last_index_of(s: Seq<char>, sep: char)
    ensures
        match last_index_of(s, sep) {
            None => forall|j: int| 0 <= j < s.len() ==> s[j] != sep,
            Some(i) => {
                &&& 0 <= i < s.len()
                &&& s[i] == sep
                &&& forall|j: int| i < j < s.len() ==> s[j] != sep
            },
        },
    decreases s.len(),
{
    if s.len() > 0 && s.last() != sep {
        let front = s.drop_last();
        lemma_last_index_of(front, sep);
        assert forall|j: int| 0 <= j < front.len() implies front[j] == s[j] by {}
        match last_index_of(front, sep) {
            None => {
                assert forall|j: int| 0 <= j < s.len() implies s[j] != sep by {
                    if j < front.len() {
                        assert(front[j] != sep);
                    }
                }
            },
            Some(i) => {
                assert(front[i] == sep);
                assert forall|j: int| i < j < s.len() implies s[j] != sep by {
                    if j < front.len() {
                        assert(front[j] != sep);
                    }
                }
            },
        }
    }
}

/// A text splits at its last `sep` into a head and a tail that holds no `sep`,
/// and into those only.
pub proof fn lemma_rsplit_once_parts(s: Seq<char>, sep: char)
    ensures
        match rsplit_once_spec(s, sep) {
            None => !s.contains(sep),
            Some((head, tail)) => s == head + seq![sep] + tail && !tail.contains(sep),
        },
{
    lemma_last_index_of(s, sep);
    match last_index_of(s, sep) {
        None => {},
        Some(i) => {
            assert(s =~= s.take(i) + seq![sep] + s.skip(i + 1));
        },
    }
}

/// Joining a head, one `sep` and a tail without `sep` gives a text that
/// splits into that head and that tail.
pub proof fn lemma_rsplit_once_of_join(head: Seq<char>, sep: char, tail: Seq<char>)
    requires
        !tail.contains(sep),
    ensures
        rsplit_once_spec(head + seq![sep] + tail, sep) == Some((head, tail)),
    decreases tail.len(),
{
    let s = head + seq![sep] + tail;
    let at = head.len() as int;
    if tail.len() == 0 {
        assert(s.last() == sep);
        assert(last_index_of(s, sep) == Some(at));
    } else {
        assert(tail.contains(tail.last()));
        assert(s.last() == tail.last());
        let shorter = tail.drop_last();
        assert forall|j: int| 0 <= j < shorter.len() implies shorter[j] != sep by {
            assert(tail.contains(tail[j]));
        }
        lemma_rsplit_once_of_join(head, sep, shorter);
        assert(s.drop_last() =~= head + seq![sep] + shorter);
        lemma_last_index_of(s.drop_last(), sep);
        let front = s.drop_last();
        assert(front.take(last_index_of(front, sep)->0).len() == head.len());
        assert(last_index_of(s, sep) == Some(at));
    }
    assert(s.take(at) =~= head);
    assert(s.skip(at + 1) =~= tail);
}

} // verus!
