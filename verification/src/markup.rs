//! Substring scanning over listing markup.
//!
//! The listing extractor works on one fetched page of a fixed, known layout,
//! so all it needs from the text is leftmost substring search and fragment
//! slicing; both are defined here with exact specifications.

use vstd::prelude::*;

verus! {

/// The pattern occurs in `s` at position `i`.
pub open spec fn matches_at(s: Seq<char>, pat: Seq<char>, i: int) -> bool {
    0 <= i && i + pat.len() <= s.len() && s.subrange(i, i + pat.len()) == pat
}

/// Position of the leftmost occurrence of `pat` in `s` at or after `from`.
/// An empty pattern is treated as absent.
pub open spec fn find_from(s: Seq<char>, pat: Seq<char>, from: int) -> Option<int>
    decreases s.len() - from,
{
    if from < 0 || pat.len() <= 0 || from + pat.len() > s.len() {
        None
    } else if matches_at(s, pat, from) {
        Some(from)
    } else {
        find_from(s, pat, from + 1)
    }
}

/// A found position is the first match at or after `from`; a miss means no
/// match at or after `from`.
pub proof fn lemma_find_from(s: Seq<char>, pat: Seq<char>, from: int)
    requires
        0 <= from,
    ensures
        match find_from(s, pat, from) {
            Some(i) => from <= i && matches_at(s, pat, i) && (forall|k: int|
                from <= k < i ==> !matches_at(s, pat, k)),
            None => pat.len() == 0 || (forall|k: int| from <= k ==> !matches_at(s, pat, k)),
        },
    decreases s.len() - from,
{
    if pat.len() <= 0 || from + pat.len() > s.len() {
    } else if matches_at(s, pat, from) {
    } else {
        lemma_find_from(s, pat, from + 1);
    }
}

/// The text between the first occurrence of `open` and the next occurrence
/// of `close` after it; absent where either marker is missing.
pub open spec fn between_spec(s: Seq<char>, open: Seq<char>, close: Seq<char>) -> Option<
    Seq<char>,
> {
    match find_from(s, open, 0) {
        None => None,
        Some(i) => match find_from(s, close, i + open.len()) {
            None => None,
            Some(j) => Some(s.subrange(i + open.len(), j)),
        },
    }
}

/// Leftmost substring search, scanning from `from`.
pub fn find_sub(s: &str, pat: &str, from: usize) -> (r: Option<usize>)
    ensures
        match r {
            Some(i) => find_from(s@, pat@, from as int) == Some(i as int) && i <= s@.len(),
            None => find_from(s@, pat@, from as int) is None,
        },
{
    let n = s.unicode_len();
    let m = pat.unicode_len();
    if m == 0 || m > n || from > n - m {
        proof {
            lemma_find_from_out_of_room(s@, pat@, from as int);
        }
        return None;
    }
    let mut i: usize = from;
    while i <= n - m
        invariant
            n == s@.len(),
            m == pat@.len(),
            1 <= m <= n,
            from <= i <= n - m + 1,
            find_from(s@, pat@, from as int) == find_from(s@, pat@, i as int),
        decreases n - i,
    {
        let mut j: usize = 0;
        let mut hit = true;
        while j < m
            invariant
                n == s@.len(),
                m == pat@.len(),
                i + m <= n,
                0 <= j <= m,
                hit ==> forall|k: int| 0 <= k < j ==> s@[i + k] == pat@[k],
                !hit ==> !matches_at(s@, pat@, i as int),
            decreases m - j,
        {
            if s.get_char(i + j) != pat.get_char(j) {
                proof {
                    assert(s@.subrange(i as int, i + m)[j as int] == s@[i + j]);
                }
                hit = false;
                j = m;
            } else {
                j = j + 1;
            }
        }
        if hit {
            proof {
                assert(s@.subrange(i as int, i + m) =~= pat@);
                assert(matches_at(s@, pat@, i as int));
            }
            return Some(i);
        }
        proof {
            assert(find_from(s@, pat@, i as int) == find_from(s@, pat@, i + 1));
        }
        i = i + 1;
    }
    proof {
        assert(i + m > n);
    }
    None
}

/// Where the pattern no longer fits, the search misses.
proof fn lemma_find_from_out_of_room(s: Seq<char>, pat: Seq<char>, from: int)
    requires
        pat.len() == 0 || from + pat.len() > s.len() || from > s.len(),
    ensures
        find_from(s, pat, from) is None,
    decreases s.len() - from,
{
    if pat.len() == 0 {
    } else if from >= 0 && from + pat.len() <= s.len() {
        lemma_find_from_out_of_room(s, pat, from + 1);
    }
}

/// The fragment between two markers, as a slice of `s`.
pub fn between<'a>(s: &'a str, open: &str, close: &str) -> (r: Option<&'a str>)
    ensures
        match r {
            Some(t) => between_spec(s@, open@, close@) == Some(t@),
            None => between_spec(s@, open@, close@) is None,
        },
{
    let n = s.unicode_len();
    match find_sub(s, open, 0) {
        None => None,
        Some(i) => {
            proof {
                lemma_find_from(s@, open@, 0);
            }
            let start = i + open.unicode_len();
            match find_sub(s, close, start) {
                None => None,
                Some(j) => {
                    proof {
                        lemma_find_from(s@, close@, start as int);
                    }
                    Some(s.substring_char(start, j))
                },
            }
        },
    }
}

} // verus!
