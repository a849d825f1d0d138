//! Trimming and integer parsing of single tokens, verified against the
//! token grammar in `model`.

use vstd::prelude::*;

use crate::model::all_digits;
use crate::model::digit_val;
use crate::model::digits_part;
use crate::model::digits_val;
use crate::model::is_digit;
use crate::model::parse_ok;
use crate::model::parse_val;
use crate::model::trim_left;
use crate::model::trim_right;
use crate::model::trim_spaces;

verus! {

/// A run of digits has a nonnegative value.
pub proof fn lemma_digits_val_nonneg(t: Seq<char>)
    requires
        all_digits(t),
    ensures
        digits_val(t) >= 0,
    decreases t.len(),
{
    if t.len() > 0 {
        assert(is_digit(t.last()));
        lemma_digits_val_nonneg(t.drop_last());
    }
}

/// The value of a run of digits is at least the value of any prefix:
/// appending digits can only grow the (nonnegative) value.
pub proof fn lemma_digits_val_prefix_le(t: Seq<char>, k: int)
    requires
        all_digits(t),
        0 <= k <= t.len(),
    ensures
        digits_val(t.take(k)) <= digits_val(t),
    decreases t.len(),
{
    if k == t.len() {
        assert(t.take(k) =~= t);
    } else {
        assert(t.drop_last().take(k) =~= t.take(k));
        lemma_digits_val_prefix_le(t.drop_last(), k);
        lemma_digits_val_nonneg(t.drop_last());
        assert(is_digit(t.last()));
    }
}

/// The token with surrounding spaces removed, as `trim_spaces` describes.
pub(crate) fn trim_spaces_exec(t: &Vec<char>) -> (r: Vec<char>)
    ensures
        r@ == trim_spaces(t@),
{
    let n: usize = t.len();
    let mut a: usize = 0;
    proof {
        assert(t@.skip(0) =~= t@);
    }
    while a < n && t[a] == ' '
        invariant
            a <= n,
            n == t@.len(),
            trim_left(t@) == trim_left(t@.skip(a as int)),
        decreases n - a,
    {
        proof {
            assert(t@.skip(a as int).len() > 0);
            assert(t@.skip(a as int)[0] == t@[a as int]);
            assert(t@.skip(a as int).skip(1) =~= t@.skip(a as int + 1));
        }
        a = a + 1;
    }
    proof {
        assert(trim_left(t@) == t@.skip(a as int));
    }
    let ghost u: Seq<char> = t@.skip(a as int);
    let mut b: usize = n;
    proof {
        assert(u.take(n - a) =~= u);
    }
    while b > a && t[b - 1] == ' '
        invariant
            a <= b <= n,
            n == t@.len(),
            u == t@.skip(a as int),
            trim_right(u) == trim_right(u.take(b - a)),
        decreases b,
    {
        proof {
            let w = u.take(b - a);
            assert(w.len() > 0);
            assert(w.last() == t@[b - 1]);
            assert(w.drop_last() =~= u.take(b - 1 - a));
        }
        b = b - 1;
    }
    proof {
        assert(trim_spaces(t@) == u.take(b - a));
    }
    let mut r: Vec<char> = Vec::new();
    let mut i: usize = a;
    while i < b
        invariant
            a <= i <= b <= n,
            n == t@.len(),
            r@ == t@.subrange(a as int, i as int),
        decreases b - i,
    {
        let c: char = t[i];
        r.push(c);
        i = i + 1;
        proof {
            assert(r@ =~= t@.subrange(a as int, i as int));
        }
    }
    proof {
        assert(t@.subrange(a as int, b as int) =~= u.take(b - a));
    }
    r
}

/// The token parsed as a signed 64-bit integer: `Some` exactly on
/// well-formed literals whose value fits, and then the parsed value.
pub(crate) fn parse_i64(t: &Vec<char>) -> (r: Option<i64>)
    ensures
        match r {
            Some(v) => parse_ok(t@) && v as int == parse_val(t@),
            None => !parse_ok(t@),
        },
{
    let n: usize = t.len();
    if n == 0 {
        return None;
    }
    let first: char = t[0];
    let neg: bool = first == '-';
    let start: usize = if first == '-' || first == '+' {
        1
    } else {
        0
    };
    let ghost dig: Seq<char> = t@.skip(start as int);
    proof {
        assert(dig =~= digits_part(t@));
    }
    if start >= n {
        // A bare sign has no digits.
        return None;
    }
    // The largest admissible value is 2^63 for a negative literal and
    // 2^63 - 1 otherwise; both are one last digit past this prefix.
    let limit_prefix: u64 = 922337203685477580;
    let limit_last: u64 = if neg {
        8
    } else {
        7
    };
    let mut acc: u64 = 0;
    let mut i: usize = start;
    while i < n
        invariant
            start <= 1,
            start <= i <= n,
            n == t@.len(),
            start == 1 ==> (t@[0] == '-' || t@[0] == '+'),
            start == 0 ==> !(t@[0] == '-' || t@[0] == '+'),
            neg == (t@[0] == '-'),
            dig == t@.skip(start as int),
            dig.len() == n - start,
            limit_prefix == 922337203685477580,
            limit_last == if neg { 8int } else { 7int },
            all_digits(dig.take(i - start)),
            acc as int == digits_val(dig.take(i - start)),
            acc as int <= limit_prefix * 10 + limit_last,
        decreases n - i,
    {
        proof {
            assert(t@.skip(0) =~= t@);
            assert(dig == digits_part(t@));
        }
        let c: char = t[i];
        if !('0' <= c && c <= '9') {
            proof {
                assert(dig[i - start] == c);
                assert(!is_digit(dig[i - start]));
            }
            return None;
        }
        let d: u64 = ((c as u32) - 48) as u64;
        proof {
            assert(d as int == digit_val(c));
            assert(dig.take(i - start + 1).drop_last() =~= dig.take(i - start));
            assert(dig.take(i - start + 1).last() == c);
        }
        if acc > limit_prefix || (acc == limit_prefix && d > limit_last) {
            // The digits read so far already exceed the admissible
            // magnitude, and further digits can only grow it.
            proof {
                lemma_digits_val_nonneg(dig.take(i - start));
                assert(digits_val(dig.take(i - start + 1)) > limit_prefix * 10 + limit_last);
                assert(all_digits(dig.take(i - start + 1)));
                if parse_ok(t@) {
                    lemma_digits_val_prefix_le(dig, i - start + 1);
                    assert(dig.take(dig.len() as int) =~= dig);
                    assert(digits_val(dig) > limit_prefix * 10 + limit_last);
                    assert(parse_val(t@) == if neg {
                        -digits_val(dig)
                    } else {
                        digits_val(dig)
                    });
                    assert(false);
                }
            }
            return None;
        }
        acc = acc * 10 + d;
        i = i + 1;
        proof {
            assert(all_digits(dig.take(i - start)));
        }
    }
    proof {
        assert(dig.take(n - start) =~= dig);
        lemma_digits_val_nonneg(dig);
    }
    if neg {
        if acc == 9223372036854775808u64 {
            proof {
                assert(parse_val(t@) == i64::MIN);
            }
            Some(i64::MIN)
        } else {
            Some(-(acc as i64))
        }
    } else {
        Some(acc as i64)
    }
}

} // verus!
