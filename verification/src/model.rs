//! The mathematical model of the calculator.
//!
//! Every stage of the pipeline — the consecutive-separator scan, the
//! character-class split, token trimming, integer parsing, negative
//! collection, normalization and summation — is described here as a spec
//! function over sequences of characters and unbounded integers. The
//! executable code is verified against `spec_add`, the composition of all
//! stages.

use vstd::prelude::*;

verus! {

/// The outcome of running the pipeline on an input, before the sum is
/// clamped to the signed 64-bit range.
pub ghost enum Outcome {
    /// Every token parsed and none was negative: the mathematical sum of
    /// the normalized values.
    Sum(int),
    /// Two separators were adjacent (ignoring spaces), or a separator was
    /// left dangling at the end of the scanned text.
    ConsecutiveSeparators,
    /// A custom-separator header was begun but is too short to name a
    /// separator character.
    InvalidInput,
    /// Some token does not parse as a signed 64-bit integer.
    NaN,
    /// Some tokens are negative; the payload lists them in input order.
    Negatives(Seq<int>),
}

/// The default separator set: comma and newline, interchangeable.
pub open spec fn default_seps() -> Seq<char> {
    seq![',', '\n']
}

/// The consecutive-separator scan. Spaces are ignored entirely; the flag
/// records whether the last significant character was a separator. The
/// scan reports a violation when a separator follows a separator with only
/// spaces between, or when the flag is still set at the end of the text
/// (a dangling trailing separator).
pub open spec fn scan_seps(s: Seq<char>, seps: Seq<char>, last_was_sep: bool) -> bool
    decreases s.len(),
{
    if s.len() == 0 {
        last_was_sep
    } else if s[0] == ' ' {
        scan_seps(s.skip(1), seps, last_was_sep)
    } else if seps.contains(s[0]) {
        last_was_sep || scan_seps(s.skip(1), seps, true)
    } else {
        scan_seps(s.skip(1), seps, false)
    }
}

/// Whether the text violates the consecutive-separator rule.
pub open spec fn has_consecutive_seps(s: Seq<char>, seps: Seq<char>) -> bool {
    scan_seps(s, seps, false)
}

/// Splitting on a character class: every separator character is a split
/// point, so k separators yield k + 1 raw tokens (possibly empty).
pub open spec fn split_on(s: Seq<char>, seps: Seq<char>) -> Seq<Seq<char>>
    decreases s.len(),
{
    if s.len() == 0 {
        seq![Seq::<char>::empty()]
    } else {
        let rest = split_on(s.skip(1), seps);
        if seps.contains(s[0]) {
            seq![Seq::<char>::empty()] + rest
        } else {
            seq![seq![s[0]] + rest[0]] + rest.skip(1)
        }
    }
}

/// The token with its leading spaces removed.
pub open spec fn trim_left(t: Seq<char>) -> Seq<char>
    decreases t.len(),
{
    if t.len() > 0 && t[0] == ' ' {
        trim_left(t.skip(1))
    } else {
        t
    }
}

/// The token with its trailing spaces removed.
pub open spec fn trim_right(t: Seq<char>) -> Seq<char>
    decreases t.len(),
{
    if t.len() > 0 && t.last() == ' ' {
        trim_right(t.drop_last())
    } else {
        t
    }
}

/// The token with surrounding spaces removed.
pub open spec fn trim_spaces(t: Seq<char>) -> Seq<char> {
    trim_right(trim_left(t))
}

/// Whether c is an ASCII decimal digit.
pub open spec fn is_digit(c: char) -> bool {
    '0' <= c && c <= '9'
}

/// The numeric value of an ASCII decimal digit.
pub open spec fn digit_val(c: char) -> int {
    c as int - '0' as int
}

/// Whether every character of t is an ASCII decimal digit.
pub open spec fn all_digits(t: Seq<char>) -> bool {
    forall|i: int| 0 <= i < t.len() ==> is_digit(#[trigger] t[i])
}

/// The value of a run of decimal digits, most significant first.
pub open spec fn digits_val(t: Seq<char>) -> int
    decreases t.len(),
{
    if t.len() == 0 {
        0
    } else {
        digits_val(t.drop_last()) * 10 + digit_val(t.last())
    }
}

/// The digit run of an integer literal: the token without its sign.
pub open spec fn digits_part(t: Seq<char>) -> Seq<char> {
    if t.len() > 0 && (t[0] == '+' || t[0] == '-') {
        t.skip(1)
    } else {
        t
    }
}

/// The signed value of an integer literal.
pub open spec fn parse_val(t: Seq<char>) -> int {
    if t.len() > 0 && t[0] == '-' {
        -digits_val(t.skip(1))
    } else {
        digits_val(digits_part(t))
    }
}

/// Whether t is a well-formed signed 64-bit integer literal: an optional
/// sign, one or more ASCII digits, and a value within the i64 range.
pub open spec fn parse_ok(t: Seq<char>) -> bool {
    &&& digits_part(t).len() > 0
    &&& all_digits(digits_part(t))
    &&& i64::MIN <= parse_val(t) <= i64::MAX
}

/// The trimmed tokens of the text.
pub open spec fn tokens_of(s: Seq<char>, seps: Seq<char>) -> Seq<Seq<char>> {
    split_on(s, seps).map_values(|t: Seq<char>| trim_spaces(t))
}

/// Whether every trimmed token is a well-formed integer literal.
pub open spec fn all_tokens_ok(s: Seq<char>, seps: Seq<char>) -> bool {
    forall|k: int| 0 <= k < tokens_of(s, seps).len() ==> parse_ok(#[trigger] tokens_of(s, seps)[k])
}

/// The parsed values of the tokens, in input order.
pub open spec fn parsed_values(s: Seq<char>, seps: Seq<char>) -> Seq<int> {
    tokens_of(s, seps).map_values(|t: Seq<char>| parse_val(t))
}

/// The strictly negative values, in their original order.
pub open spec fn negatives_of(vs: Seq<int>) -> Seq<int>
    decreases vs.len(),
{
    if vs.len() == 0 {
        Seq::empty()
    } else if vs.last() < 0 {
        negatives_of(vs.drop_last()).push(vs.last())
    } else {
        negatives_of(vs.drop_last())
    }
}

/// Values above 1000 are replaced by zero; the rest are kept.
pub open spec fn normalized(vs: Seq<int>) -> Seq<int> {
    vs.map_values(|v: int| if v <= 1000 { v } else { 0 })
}

/// The sum of a sequence of integers.
pub open spec fn sum_of(vs: Seq<int>) -> int
    decreases vs.len(),
{
    if vs.len() == 0 {
        0
    } else {
        sum_of(vs.drop_last()) + vs.last()
    }
}

/// The whole pipeline for one separator set, in the order the stages run:
/// the consecutive-separator check, the empty-input short-circuit,
/// tokenizing and parsing, the negative check, then normalization and
/// summation.
pub open spec fn spec_pipeline(s: Seq<char>, seps: Seq<char>) -> Outcome {
    if has_consecutive_seps(s, seps) {
        Outcome::ConsecutiveSeparators
    } else if s.len() == 0 {
        Outcome::Sum(0)
    } else if !all_tokens_ok(s, seps) {
        Outcome::NaN
    } else if negatives_of(parsed_values(s, seps)).len() > 0 {
        Outcome::Negatives(negatives_of(parsed_values(s, seps)))
    } else {
        Outcome::Sum(sum_of(normalized(parsed_values(s, seps))))
    }
}

/// Whether the input declares a custom separator.
pub open spec fn has_custom_header(s: Seq<char>) -> bool {
    s.len() >= 2 && s[0] == '/' && s[1] == '/'
}

/// The text after the four header characters `//<sep>\n`. The fourth
/// header character is skipped without being inspected, as the header
/// contract prescribes.
pub open spec fn rest_after_header(s: Seq<char>) -> Seq<char> {
    if s.len() <= 4 {
        Seq::empty()
    } else {
        s.skip(4)
    }
}

/// The outcome of the whole calculator on an input.
pub open spec fn spec_add(s: Seq<char>) -> Outcome {
    if has_custom_header(s) {
        if s.len() < 3 {
            Outcome::InvalidInput
        } else {
            spec_pipeline(rest_after_header(s), seq![s[2]])
        }
    } else {
        spec_pipeline(s, default_seps())
    }
}

/// A mathematical sum clamped to the signed 64-bit range. Only sums of
/// nonnegative values reach the clamp, so only the upper bound can act.
pub open spec fn clamp_to_i64(n: int) -> int {
    if n > i64::MAX {
        i64::MAX as int
    } else if n < i64::MIN {
        i64::MIN as int
    } else {
        n
    }
}

/// The outcome with its sum clamped to the signed 64-bit range.
pub open spec fn clamped(out: Outcome) -> Outcome {
    match out {
        Outcome::Sum(n) => Outcome::Sum(clamp_to_i64(n)),
        o => o,
    }
}

/// A sequence of machine integers as a sequence of unbounded integers.
pub open spec fn int_view(vs: Seq<i64>) -> Seq<int> {
    vs.map_values(|v: i64| v as int)
}

/// Splitting always yields at least one raw token.
pub proof fn lemma_split_on_len(s: Seq<char>, seps: Seq<char>)
    ensures
        split_on(s, seps).len() >= 1,
    decreases s.len(),
{
    if s.len() > 0 {
        lemma_split_on_len(s.skip(1), seps);
    }
}

/// How a split decomposes over concatenation: the last token of the left
/// part joins the first token of the right part, and the remaining tokens
/// of both parts are kept as they are.
pub proof fn lemma_split_on_append(a: Seq<char>, b: Seq<char>, seps: Seq<char>)
    ensures
        split_on(a + b, seps) == split_on(a, seps).drop_last() + seq![
            split_on(a, seps).last() + split_on(b, seps)[0],
        ] + split_on(b, seps).skip(1),
    decreases a.len(),
{
    lemma_split_on_len(a, seps);
    lemma_split_on_len(b, seps);
    let sa = split_on(a, seps);
    let sb = split_on(b, seps);
    if a.len() == 0 {
        assert(a + b =~= b);
        assert(sa == seq![Seq::<char>::empty()]);
        assert(sa.last() + sb[0] =~= sb[0]);
        assert(sa.drop_last() + seq![sa.last() + sb[0]] + sb.skip(1) =~~= sb);
    } else {
        let a1 = a.skip(1);
        lemma_split_on_len(a1, seps);
        assert((a + b).skip(1) =~= a1 + b);
        assert((a + b)[0] == a[0]);
        lemma_split_on_append(a1, b, seps);
        let sa1 = split_on(a1, seps);
        let sab1 = split_on(a1 + b, seps);
        if seps.contains(a[0]) {
            assert(split_on(a + b, seps) == seq![Seq::<char>::empty()] + sab1);
            assert(sa == seq![Seq::<char>::empty()] + sa1);
            assert(sa.drop_last() =~= seq![Seq::<char>::empty()] + sa1.drop_last());
            assert(sa.last() == sa1.last());
            assert(seq![Seq::<char>::empty()] + sab1 =~~= sa.drop_last() + seq![sa.last() + sb[0]]
                + sb.skip(1));
        } else {
            assert(split_on(a + b, seps) == seq![seq![a[0]] + sab1[0]] + sab1.skip(1));
            assert(sa == seq![seq![a[0]] + sa1[0]] + sa1.skip(1));
            if sa1.len() == 1 {
                assert(sab1[0] =~= sa1[0] + sb[0]);
                assert(sa.last() == seq![a[0]] + sa1[0]);
                assert(seq![a[0]] + sab1[0] =~= (seq![a[0]] + sa1[0]) + sb[0]);
                assert(sab1.skip(1) =~= sb.skip(1));
                assert(sa.drop_last() =~= Seq::<Seq<char>>::empty());
                assert(seq![seq![a[0]] + sab1[0]] + sab1.skip(1) =~~= sa.drop_last() + seq![
                    sa.last() + sb[0],
                ] + sb.skip(1));
            } else {
                assert(sab1[0] == sa1.drop_last()[0]);
                assert(sab1[0] == sa1[0]);
                assert(sa.drop_last() =~= seq![seq![a[0]] + sa1[0]] + sa1.skip(1).drop_last());
                assert(sa.last() == sa1.last());
                assert(sab1.skip(1) =~= sa1.drop_last().skip(1) + seq![sa1.last() + sb[0]]
                    + sb.skip(1));
                assert(sa1.drop_last().skip(1) =~= sa1.skip(1).drop_last());
                assert(seq![seq![a[0]] + sab1[0]] + sab1.skip(1) =~~= sa.drop_last() + seq![
                    sa.last() + sb[0],
                ] + sb.skip(1));
            }
        }
    }
}

/// Scanning one more non-separator character extends the last raw token.
pub proof fn lemma_split_on_step_char(s: Seq<char>, seps: Seq<char>, i: int)
    requires
        0 <= i < s.len(),
        !seps.contains(s[i]),
    ensures
        split_on(s.take(i + 1), seps) == split_on(s.take(i), seps).drop_last().push(
            split_on(s.take(i), seps).last().push(s[i]),
        ),
{
    let p = s.take(i);
    let c = seq![s[i]];
    let sp = split_on(p, seps);
    lemma_split_on_len(p, seps);
    assert(s.take(i + 1) =~= p + c);
    lemma_split_on_append(p, c, seps);
    assert(split_on(Seq::<char>::empty(), seps) == seq![Seq::<char>::empty()]);
    assert(c.skip(1) =~= Seq::<char>::empty());
    assert(split_on(c, seps) =~~= seq![seq![s[i]]]);
    assert(sp.last() + seq![s[i]] =~= sp.last().push(s[i]));
    assert(sp.drop_last() + seq![sp.last() + split_on(c, seps)[0]] + split_on(c, seps).skip(1)
        =~~= sp.drop_last().push(sp.last().push(s[i])));
}

/// Scanning a separator character closes the current raw token and opens
/// a new, empty one.
pub proof fn lemma_split_on_step_sep(s: Seq<char>, seps: Seq<char>, i: int)
    requires
        0 <= i < s.len(),
        seps.contains(s[i]),
    ensures
        split_on(s.take(i + 1), seps) == split_on(s.take(i), seps).push(Seq::<char>::empty()),
{
    let p = s.take(i);
    let c = seq![s[i]];
    let sp = split_on(p, seps);
    lemma_split_on_len(p, seps);
    assert(s.take(i + 1) =~= p + c);
    lemma_split_on_append(p, c, seps);
    assert(split_on(Seq::<char>::empty(), seps) == seq![Seq::<char>::empty()]);
    assert(c.skip(1) =~= Seq::<char>::empty());
    assert(split_on(c, seps) =~~= seq![Seq::<char>::empty(), Seq::<char>::empty()]);
    assert(sp.last() + split_on(c, seps)[0] =~= sp.last());
    assert(sp.drop_last() + seq![sp.last() + split_on(c, seps)[0]] + split_on(c, seps).skip(1)
        =~~= sp.push(Seq::<char>::empty()));
}

/// When no negatives were collected, every value is nonnegative.
pub proof fn lemma_negatives_empty(vs: Seq<int>)
    requires
        negatives_of(vs).len() == 0,
    ensures
        forall|k: int| 0 <= k < vs.len() ==> #[trigger] vs[k] >= 0,
    decreases vs.len(),
{
    if vs.len() > 0 {
        assert(!(vs.last() < 0));
        lemma_negatives_empty(vs.drop_last());
        assert forall|k: int| 0 <= k < vs.len() implies #[trigger] vs[k] >= 0 by {
            if k < vs.len() - 1 {
                assert(vs[k] == vs.drop_last()[k]);
            }
        }
    }
}

} // verus!
