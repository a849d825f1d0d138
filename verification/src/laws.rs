//! Laws of the calculator that relate whole calls to one another.

use vstd::prelude::*;

use crate::calc::add_post;
use crate::calc::result_model;
use crate::calc::AddError;
use crate::model::all_digits;
use crate::model::all_tokens_ok;
use crate::model::default_seps;
use crate::model::digits_part;
use crate::model::digits_val;
use crate::model::has_consecutive_seps;
use crate::model::has_custom_header;
use crate::model::is_digit;
use crate::model::lemma_split_on_append;
use crate::model::negatives_of;
use crate::model::normalized;
use crate::model::parse_ok;
use crate::model::parse_val;
use crate::model::parsed_values;
use crate::model::scan_seps;
use crate::model::spec_add;
use crate::model::spec_pipeline;
use crate::model::split_on;
use crate::model::sum_of;
use crate::model::tokens_of;
use crate::model::trim_spaces;
use crate::model::Outcome;
use crate::parse::lemma_digits_val_nonneg;

verus! {

/// Purity: the result of `add` is a function of the input alone. Any two
/// results that meet the contract of `add` on the same input stand for
/// the same outcome — there is no hidden state.
pub proof fn lemma_add_deterministic(
    s: Seq<char>,
    r1: Result<i64, AddError>,
    r2: Result<i64, AddError>,
)
    requires
        add_post(s, r1),
        add_post(s, r2),
    ensures
        result_model(r1) == result_model(r2),
{
}

/// A character that is neither a separator nor a space.
spec fn plain_char(c: char, seps: Seq<char>) -> bool {
    !seps.contains(c) && c != ' '
}

/// A nonempty run of plain characters resets and then never touches the
/// separator flag, whatever its value was before the run.
proof fn lemma_scan_plain_run(t: Seq<char>, rest: Seq<char>, seps: Seq<char>, flag: bool)
    requires
        t.len() > 0,
        forall|i: int| 0 <= i < t.len() ==> plain_char(#[trigger] t[i], seps),
    ensures
        scan_seps(t + rest, seps, flag) == scan_seps(rest, seps, false),
    decreases t.len(),
{
    assert(plain_char(t[0], seps));
    assert((t + rest)[0] == t[0]);
    assert((t + rest).skip(1) =~= t.skip(1) + rest);
    if t.len() == 1 {
        assert(t.skip(1) + rest =~= rest);
    } else {
        lemma_scan_plain_run(t.skip(1), rest, seps, false);
    }
}

/// A run with no separator characters is a single raw token.
proof fn lemma_split_no_sep(t: Seq<char>, seps: Seq<char>)
    requires
        forall|i: int| 0 <= i < t.len() ==> !seps.contains(#[trigger] t[i]),
    ensures
        split_on(t, seps) == seq![t],
    decreases t.len(),
{
    if t.len() == 0 {
        assert(split_on(t, seps) =~~= seq![t]);
    } else {
        lemma_split_no_sep(t.skip(1), seps);
        assert(split_on(t, seps) == seq![seq![t[0]] + t.skip(1)] + split_on(t.skip(1), seps).skip(
            1,
        ));
        assert(seq![t[0]] + t.skip(1) =~= t);
        assert(split_on(t, seps) =~~= seq![t]);
    }
}

/// A token without spaces is unchanged by trimming.
proof fn lemma_trim_no_space(t: Seq<char>)
    requires
        forall|i: int| 0 <= i < t.len() ==> #[trigger] t[i] != ' ',
    ensures
        trim_spaces(t) == t,
{
}

/// A digit is not a default separator, a space, a sign, or a slash.
proof fn lemma_digit_plain(c: char)
    requires
        is_digit(c),
    ensures
        plain_char(c, default_seps()),
        c != '/' && c != '+' && c != '-',
{
    assert forall|k: int| 0 <= k < default_seps().len() implies default_seps()[k] != c by {
        assert(default_seps()[0] == ',' && default_seps()[1] == '\n');
    }
    assert(!default_seps().contains(c));
}

/// Joining two nonnegative integer literals with values at most 1000 by a
/// comma yields their exact sum.
pub proof fn lemma_add_two_literals(a: Seq<char>, b: Seq<char>)
    requires
        a.len() > 0,
        b.len() > 0,
        all_digits(a),
        all_digits(b),
        digits_val(a) <= 1000,
        digits_val(b) <= 1000,
    ensures
        spec_add(a + seq![','] + b) == Outcome::Sum(digits_val(a) + digits_val(b)),
{
    let s = a + seq![','] + b;
    let seps = default_seps();
    let comma_b = seq![','] + b;
    assert forall|i: int| 0 <= i < a.len() implies plain_char(#[trigger] a[i], seps) by {
        lemma_digit_plain(a[i]);
    }
    assert forall|i: int| 0 <= i < b.len() implies plain_char(#[trigger] b[i], seps) by {
        lemma_digit_plain(b[i]);
    }
    lemma_digit_plain(a[0]);
    lemma_digit_plain(b[0]);
    lemma_digits_val_nonneg(a);
    lemma_digits_val_nonneg(b);
    // No custom header: the first character is a digit, not a slash.
    assert(s[0] == a[0]);
    assert(!has_custom_header(s));
    // No consecutive separators: the single comma is walled in by digits.
    assert(s =~= a + comma_b);
    lemma_scan_plain_run(a, comma_b, seps, false);
    assert(seps.contains(comma_b[0]));
    assert(comma_b.skip(1) =~= b + Seq::<char>::empty());
    lemma_scan_plain_run(b, Seq::<char>::empty(), seps, true);
    assert(scan_seps(Seq::<char>::empty(), seps, false) == false);
    assert(!has_consecutive_seps(s, seps));
    // The split has exactly the two literals as raw tokens.
    lemma_split_no_sep(a, seps);
    lemma_split_no_sep(b, seps);
    lemma_split_on_append(a, comma_b, seps);
    assert(split_on(comma_b, seps) == seq![Seq::<char>::empty()] + split_on(b, seps));
    assert(split_on(comma_b, seps) =~~= seq![Seq::<char>::empty(), b]);
    assert(seq![a].last() + split_on(comma_b, seps)[0] =~= a);
    assert(split_on(s, seps) =~~= seq![a, b]);
    // Both tokens are space-free, digit-only literals in range.
    lemma_trim_no_space(a);
    lemma_trim_no_space(b);
    assert(tokens_of(s, seps) =~~= seq![a, b]);
    assert(digits_part(a) == a && digits_part(b) == b);
    assert(parse_ok(a) && parse_val(a) == digits_val(a));
    assert(parse_ok(b) && parse_val(b) == digits_val(b));
    assert(all_tokens_ok(s, seps));
    let vals = parsed_values(s, seps);
    assert(vals =~= seq![digits_val(a), digits_val(b)]);
    // No negatives, nothing above 1000: the sum is exact.
    assert(vals.drop_last() =~= seq![digits_val(a)]);
    assert(seq![digits_val(a)].drop_last() =~= Seq::<int>::empty());
    assert(negatives_of(Seq::<int>::empty()) == Seq::<int>::empty());
    assert(negatives_of(seq![digits_val(a)]) == Seq::<int>::empty());
    assert(negatives_of(vals).len() == 0);
    assert(normalized(vals) =~= vals);
    assert(sum_of(Seq::<int>::empty()) == 0);
    assert(sum_of(seq![digits_val(a)]) == digits_val(a));
    assert(sum_of(vals) == digits_val(a) + digits_val(b));
    assert(spec_pipeline(s, seps) == Outcome::Sum(digits_val(a) + digits_val(b)));
}

/// Commutativity: for two nonnegative integer literals with values at
/// most 1000, the outcome does not depend on the order in which the two
/// numbers are joined.
pub proof fn lemma_add_commutative(a: Seq<char>, b: Seq<char>)
    requires
        a.len() > 0,
        b.len() > 0,
        all_digits(a),
        all_digits(b),
        digits_val(a) <= 1000,
        digits_val(b) <= 1000,
    ensures
        spec_add(a + seq![','] + b) == spec_add(b + seq![','] + a),
{
    lemma_add_two_literals(a, b);
    lemma_add_two_literals(b, a);
}

} // verus!
