//! Price normalization: raw marketplace price text to an integer value.
//!
//! Every character that is not a decimal digit (currency symbols, thousands
//! separators, decimal points, whitespace, currency codes) is discarded and
//! the remaining digit run is read as a base-10 integer. An empty digit run,
//! or one whose value does not fit the result type, normalizes to zero.

use vstd::prelude::*;

verus! {

/// A decimal digit character.
pub open spec fn is_digit_char(c: char) -> bool {
    '0' <= c && c <= '9'
}

/// Numeric value of a decimal digit character.
pub open spec fn digit_value(c: char) -> nat
    recommends
        is_digit_char(c),
{
    (c as u32 - '0' as u32) as nat
}

/// The subsequence of decimal digit characters of `s`, in order.
pub open spec fn digits_of(s: Seq<char>) -> Seq<char>
    decreases s.len(),
{
    if s.len() == 0 {
        Seq::empty()
    } else {
        digits_of(s.drop_last()) + (if is_digit_char(s.last()) {
            seq![s.last()]
        } else {
            Seq::empty()
        })
    }
}

/// Base-10 value of a digit sequence; the empty sequence has value zero.
pub open spec fn decimal_value(d: Seq<char>) -> nat
    decreases d.len(),
{
    if d.len() == 0 {
        0
    } else {
        decimal_value(d.drop_last()) * 10 + digit_value(d.last())
    }
}

/// What `clean_price` returns: the value of the digit run of `s`, or zero
/// where that run is empty (value zero) or too large to represent.
pub open spec fn normalized_price(s: Seq<char>) -> nat {
    if decimal_value(digits_of(s)) <= u64::MAX {
        decimal_value(digits_of(s))
    } else {
        0
    }
}

/// The digit run of a concatenation is the concatenation of the digit runs.
proof fn lemma_digits_of_concat(a: Seq<char>, b: Seq<char>)
    ensures
        digits_of(a + b) == digits_of(a) + digits_of(b),
    decreases b.len(),
{
    if b.len() == 0 {
        assert(a + b =~= a);
        assert(digits_of(a) + digits_of(b) =~= digits_of(a));
    } else {
        lemma_digits_of_concat(a, b.drop_last());
        assert((a + b).drop_last() =~= a + b.drop_last());
        assert((a + b).last() == b.last());
        if is_digit_char(b.last()) {
            assert(digits_of(a + b) =~= digits_of(a) + digits_of(b));
        } else {
            assert(digits_of(b) =~= digits_of(b.drop_last()));
            assert(digits_of(a + b) =~= digits_of(a) + digits_of(b));
        }
    }
}

/// Appending digits never decreases the decimal value.
proof fn lemma_decimal_value_extend(d: Seq<char>, e: Seq<char>)
    ensures
        decimal_value(d + e) >= decimal_value(d),
    decreases e.len(),
{
    if e.len() == 0 {
        assert(d + e =~= d);
    } else {
        lemma_decimal_value_extend(d, e.drop_last());
        assert((d + e).drop_last() =~= d + e.drop_last());
        assert(decimal_value(d + e) == decimal_value(d + e.drop_last()) * 10 + digit_value(
            (d + e).last(),
        ));
        assert(decimal_value(d + e.drop_last()) * 10 >= decimal_value(d + e.drop_last()));
    }
}

/// Normalize raw price text: keep the decimal digits, read them as one
/// base-10 integer, and fall back to zero for an empty or oversized run.
pub fn clean_price(raw: &str) -> (p: u64)
    ensures
        p == normalized_price(raw@),
{
    let ghost s = raw@;
    let n = raw.unicode_len();
    let mut i: usize = 0;
    let mut acc: u64 = 0;
    while i < n
        invariant
            s == raw@,
            n == s.len(),
            0 <= i <= n,
            acc == decimal_value(digits_of(s.take(i as int))),
        decreases n - i,
    {
        let c = raw.get_char(i);
        let u = c as u32;
        proof {
            assert(s.take(i + 1).drop_last() =~= s.take(i as int));
            assert(s.take(i + 1).last() == s[i as int]);
        }
        if 48 <= u && u <= 57 {
            let d: u64 = (u - 48) as u64;
            proof {
                assert(is_digit_char(c));
                assert(digit_value(c) == d);
                assert(digits_of(s.take(i + 1)) == digits_of(s.take(i as int)) + seq![c]);
                let dd = digits_of(s.take(i + 1));
                assert(dd.drop_last() =~= digits_of(s.take(i as int)));
                assert(dd.last() == c);
                assert(decimal_value(dd) == acc * 10 + d);
            }
            let q: u64 = (u64::MAX - d) / 10;
            if acc > q {
                // The digit run already exceeds the result type; it can only
                // grow as the scan continues, so the whole text normalizes to
                // zero.
                proof {
                    assert(u64::MAX - d as int >= 10 * q + 0 && u64::MAX - d as int <= 10 * q
                        + 9) by {
                        assert(u64::MAX - d as int == 10 * ((u64::MAX - d) as int / 10) + (u64::MAX
                            - d) as int % 10) by (nonlinear_arith);
                        assert(0 <= (u64::MAX - d) as int % 10 < 10) by (nonlinear_arith);
                    }
                    assert(acc * 10 >= (q + 1) * 10) by (nonlinear_arith)
                        requires
                            acc >= q + 1,
                    ;
                    assert(decimal_value(digits_of(s.take(i + 1))) > u64::MAX);
                    lemma_digits_of_concat(s.take(i + 1), s.skip(i + 1));
                    assert(s.take(i + 1) + s.skip(i + 1) =~= s);
                    lemma_decimal_value_extend(
                        digits_of(s.take(i + 1)),
                        digits_of(s.skip(i + 1)),
                    );
                    assert(decimal_value(digits_of(s)) > u64::MAX);
                }
                return 0;
            }
            proof {
                assert(acc * 10 <= q * 10) by (nonlinear_arith)
                    requires
                        acc <= q,
                ;
                assert(q * 10 <= u64::MAX - d) by {
                    assert(u64::MAX - d as int == 10 * ((u64::MAX - d) as int / 10) + (u64::MAX
                        - d) as int % 10) by (nonlinear_arith);
                    assert(0 <= (u64::MAX - d) as int % 10 < 10) by (nonlinear_arith);
                }
            }
            acc = acc * 10 + d;
        } else {
            proof {
                assert(digits_of(s.take(i + 1)) =~= digits_of(s.take(i as int)));
            }
        }
        i = i + 1;
    }
    proof {
        assert(s.take(n as int) =~= s);
    }
    acc
}

} // verus!
