//! Small text utilities: whitespace trimming and ASCII lowercasing.

use vstd::prelude::*;

verus! {

/// ASCII whitespace.
pub open spec fn is_space(c: char) -> bool {
    c == ' ' || c == '\t' || c == '\n' || c == '\r'
}

/// `s` without its leading whitespace.
pub open spec fn trim_front(s: Seq<char>) -> Seq<char>
    decreases s.len(),
{
    if s.len() > 0 && is_space(s[0]) {
        trim_front(s.skip(1))
    } else {
        s
    }
}

/// `s` without its trailing whitespace.
pub open spec fn trim_back(s: Seq<char>) -> Seq<char>
    decreases s.len(),
{
    if s.len() > 0 && is_space(s.last()) {
        trim_back(s.drop_last())
    } else {
        s
    }
}

/// `s` without leading and trailing whitespace.
pub open spec fn trim_spec(s: Seq<char>) -> Seq<char> {
    trim_back(trim_front(s))
}

fn is_space_exec(c: char) -> (r: bool)
    ensures
        r == is_space(c),
{
    c == ' ' || c == '\t' || c == '\n' || c == '\r'
}

/// Strip leading and trailing whitespace.
pub fn trim(s: &str) -> (r: String)
    ensures
        r@ == trim_spec(s@),
{
    let n = s.unicode_len();
    proof {
        assert(s@.skip(0) =~= s@);
    }
    let mut i: usize = 0;
    let mut scanning = true;
    while scanning && i < n
        invariant
            n == s@.len(),
            0 <= i <= n,
            trim_front(s@) == trim_front(s@.skip(i as int)),
            !scanning && i < n ==> !is_space(s@[i as int]),
        decreases n - i, (if scanning {
            1int
        } else {
            0int
        }),
    {
        if is_space_exec(s.get_char(i)) {
            proof {
                assert(s@.skip(i as int)[0] == s@[i as int]);
                assert(s@.skip(i as int).skip(1) =~= s@.skip(i + 1));
            }
            i = i + 1;
        } else {
            scanning = false;
        }
    }
    proof {
        assert(trim_front(s@) == s@.skip(i as int));
    }
    let ghost t = s@.skip(i as int);
    proof {
        assert(t.take(n - i) =~= t);
    }
    let mut j: usize = n;
    let mut scanning_back = true;
    while scanning_back && j > i
        invariant
            n == s@.len(),
            0 <= i <= j <= n,
            t == s@.skip(i as int),
            trim_back(t) == trim_back(t.take(j - i)),
            !scanning_back && j > i ==> !is_space(s@[j - 1]),
        decreases j, (if scanning_back {
            1int
        } else {
            0int
        }),
    {
        if is_space_exec(s.get_char(j - 1)) {
            proof {
                assert(t.take(j - i).last() == s@[j - 1]);
                assert(t.take(j - i).drop_last() =~= t.take(j - 1 - i));
            }
            j = j - 1;
        } else {
            scanning_back = false;
        }
    }
    proof {
        if j == i {
            assert(t.take(0) =~= Seq::<char>::empty());
            assert(trim_back(t) == t.take(j - i));
        } else {
            assert(t.take(j - i).last() == s@[j - 1]);
            assert(trim_back(t) == t.take(j - i));
        }
        assert(s@.subrange(i as int, j as int) =~= t.take(j - i));
    }
    let piece = s.substring_char(i, j);
    String::from_str(piece)
}

/// ASCII lowercasing of one character; other characters stand unchanged.
pub open spec fn lower_char(c: char) -> char {
    if 'A' <= c && c <= 'Z' {
        ((c as u8) + 32) as char
    } else {
        c
    }
}

/// ASCII lowercasing of a text.
pub open spec fn lower_spec(s: Seq<char>) -> Seq<char> {
    s.map_values(|c: char| lower_char(c))
}

fn lower_char_exec(c: char) -> (r: char)
    ensures
        r == lower_char(c),
{
    if 'A' <= c && c <= 'Z' {
        ((c as u8) + 32) as char
    } else {
        c
    }
}

/// ASCII-lowercase a text, as a character vector.
pub fn lower_chars(s: &str) -> (v: Vec<char>)
    ensures
        v@ == lower_spec(s@),
{
    let n = s.unicode_len();
    let mut v: Vec<char> = Vec::new();
    let mut i: usize = 0;
    while i < n
        invariant
            n == s@.len(),
            0 <= i <= n,
            v@ == lower_spec(s@.take(i as int)),
        decreases n - i,
    {
        let c = lower_char_exec(s.get_char(i));
        proof {
            assert(lower_spec(s@.take(i + 1)) =~= lower_spec(s@.take(i as int)).push(
                lower_char(s@[i as int]),
            ));
        }
        v.push(c);
        i = i + 1;
    }
    proof {
        assert(s@.take(n as int) =~= s@);
    }
    v
}

} // verus!
