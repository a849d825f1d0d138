//! The calculator itself: the executable pipeline, verified against the
//! model in `model`.

use vstd::prelude::*;

use crate::model::all_tokens_ok;
use crate::model::clamp_to_i64;
use crate::model::clamped;
use crate::model::default_seps;
use crate::model::has_consecutive_seps;
use crate::model::has_custom_header;
use crate::model::int_view;
use crate::model::lemma_negatives_empty;
use crate::model::lemma_split_on_append;
use crate::model::lemma_split_on_len;
use crate::model::lemma_split_on_step_char;
use crate::model::lemma_split_on_step_sep;
use crate::model::negatives_of;
use crate::model::normalized;
use crate::model::parse_ok;
use crate::model::parse_val;
use crate::model::parsed_values;
use crate::model::rest_after_header;
use crate::model::scan_seps;
use crate::model::spec_add;
use crate::model::spec_pipeline;
use crate::model::split_on;
use crate::model::sum_of;
use crate::model::tokens_of;
use crate::model::trim_spaces;
use crate::model::Outcome;
use crate::parse::parse_i64;
use crate::parse::trim_spaces_exec;

verus! {

/// The classified errors of the calculator. Every failure of `add` is one
/// of these values; no input makes the pipeline panic.
#[derive(Debug, PartialEq, Eq, Clone)]
pub enum AddError {
    /// Two separators were adjacent (ignoring spaces), or a separator was
    /// left dangling at the end of the list.
    ConsecutiveSeparators,
    /// The custom-separator header is too short to name a separator.
    InvalidInput,
    /// A token does not parse as a signed 64-bit integer.
    NaN,
    /// Some tokens were negative; they are carried here in input order.
    HasNegative(Vec<i64>),
}

/// The outcome that a result of `add` stands for.
pub open spec fn result_model(r: Result<i64, AddError>) -> Outcome {
    match r {
        Ok(n) => Outcome::Sum(n as int),
        Err(AddError::ConsecutiveSeparators) => Outcome::ConsecutiveSeparators,
        Err(AddError::InvalidInput) => Outcome::InvalidInput,
        Err(AddError::NaN) => Outcome::NaN,
        Err(AddError::HasNegative(l)) => Outcome::Negatives(int_view(l@)),
    }
}

/// The contract of `add`: the returned value stands for exactly the
/// outcome that the model assigns to the input, with the sum clamped to
/// the signed 64-bit range.
pub open spec fn add_post(s: Seq<char>, r: Result<i64, AddError>) -> bool {
    result_model(r) == clamped(spec_add(s))
}

/// The characters of a string slice, in order.
fn to_char_vec(s: &str) -> (r: Vec<char>)
    ensures
        r@ == s@,
{
    let n: usize = s.unicode_len();
    let mut r: Vec<char> = Vec::new();
    let mut i: usize = 0;
    while i < n
        invariant
            i <= n,
            n == s@.len(),
            r@ == s@.take(i as int),
        decreases n - i,
    {
        let c: char = s.get_char(i);
        r.push(c);
        i = i + 1;
        proof {
            assert(r@ =~= s@.take(i as int));
        }
    }
    proof {
        assert(s@.take(n as int) =~= s@);
    }
    r
}

/// Whether c is one of the separator characters.
fn contains_char(seps: &Vec<char>, c: char) -> (r: bool)
    ensures
        r == seps@.contains(c),
{
    let n: usize = seps.len();
    let mut i: usize = 0;
    while i < n
        invariant
            i <= n,
            n == seps@.len(),
            forall|k: int| 0 <= k < i ==> seps@[k] != c,
        decreases n - i,
    {
        if seps[i] == c {
            return true;
        }
        i = i + 1;
    }
    false
}

/// The consecutive-separator scan over a character sequence, as
/// `has_consecutive_seps` describes it.
fn scan_seps_exec(chars: &Vec<char>, seps: &Vec<char>) -> (violation: bool)
    ensures
        violation == has_consecutive_seps(chars@, seps@),
{
    let n: usize = chars.len();
    let mut flag: bool = false;
    let mut i: usize = 0;
    proof {
        assert(chars@.skip(0) =~= chars@);
    }
    while i < n
        invariant
            i <= n,
            n == chars@.len(),
            has_consecutive_seps(chars@, seps@) == scan_seps(chars@.skip(i as int), seps@, flag),
        decreases n - i,
    {
        let c: char = chars[i];
        proof {
            assert(chars@.skip(i as int)[0] == c);
            assert(chars@.skip(i as int).skip(1) =~= chars@.skip(i as int + 1));
        }
        if c == ' ' {
            // Spaces neither trigger nor reset the separator flag.
        } else if contains_char(seps, c) {
            if flag {
                return true;
            }
            flag = true;
        } else {
            flag = false;
        }
        i = i + 1;
    }
    proof {
        assert(chars@.skip(n as int) =~= Seq::<char>::empty());
    }
    flag
}

/// The consecutive-separator check: rejects text in which two separators
/// are adjacent (ignoring spaces) or a separator dangles at the end.
pub fn check_consecutive_separators(input: &str, seps: &Vec<char>) -> (r: Result<(), AddError>)
    ensures
        r is Ok <==> !has_consecutive_seps(input@, seps@),
        r is Err ==> r == Err::<(), AddError>(AddError::ConsecutiveSeparators),
{
    let chars: Vec<char> = to_char_vec(input);
    if scan_seps_exec(&chars, seps) {
        Err(AddError::ConsecutiveSeparators)
    } else {
        Ok(())
    }
}

/// The negative-number check: succeeds when no value is negative, and
/// otherwise carries every negative value, in input order.
pub fn check_negatives(ns: &Vec<i64>) -> (r: Result<(), AddError>)
    ensures
        negatives_of(int_view(ns@)).len() == 0 ==> r is Ok,
        negatives_of(int_view(ns@)).len() > 0 ==> (r matches Err(AddError::HasNegative(l))
            && int_view(l@) == negatives_of(int_view(ns@))),
{
    let ghost vt: Seq<int> = int_view(ns@);
    let n: usize = ns.len();
    let mut negatives: Vec<i64> = Vec::new();
    let mut i: usize = 0;
    proof {
        assert(vt.take(0) =~= Seq::<int>::empty());
        assert(int_view(negatives@) =~= Seq::<int>::empty());
    }
    while i < n
        invariant
            i <= n,
            n == ns@.len(),
            vt == int_view(ns@),
            int_view(negatives@) == negatives_of(vt.take(i as int)),
        decreases n - i,
    {
        let v: i64 = ns[i];
        proof {
            assert(vt.take(i as int + 1).drop_last() =~= vt.take(i as int));
            assert(vt.take(i as int + 1).last() == v as int);
        }
        if v < 0 {
            negatives.push(v);
            proof {
                assert(int_view(negatives@) =~= negatives_of(vt.take(i as int + 1)));
            }
        }
        i = i + 1;
    }
    proof {
        assert(vt.take(n as int) =~= vt);
    }
    if negatives.len() == 0 {
        Ok(())
    } else {
        Err(AddError::HasNegative(negatives))
    }
}

/// The normalization pass: values above 1000 are replaced by zero.
pub fn normalize_numbers(numbers: Vec<i64>) -> (r: Vec<i64>)
    ensures
        int_view(r@) == normalized(int_view(numbers@)),
{
    let n: usize = numbers.len();
    let mut r: Vec<i64> = Vec::new();
    let mut i: usize = 0;
    while i < n
        invariant
            i <= n,
            n == numbers@.len(),
            r@.len() == i,
            forall|k: int|
                0 <= k < i ==> #[trigger] r@[k] == if numbers@[k] <= 1000 {
                    numbers@[k]
                } else {
                    0i64
                },
        decreases n - i,
    {
        let v: i64 = numbers[i];
        if v <= 1000 {
            r.push(v);
        } else {
            r.push(0);
        }
        i = i + 1;
    }
    proof {
        assert(int_view(r@) =~= normalized(int_view(numbers@)));
    }
    r
}

/// The contract of the tokenizer: empty text yields the empty list; a
/// token that does not parse yields `NaN`; negative values yield
/// `HasNegative` carrying exactly those values in order; otherwise the
/// normalized values, in order.
pub open spec fn tokenize_post(
    s: Seq<char>,
    seps: Seq<char>,
    r: Result<Vec<i64>, AddError>,
) -> bool {
    if s.len() == 0 {
        r matches Ok(v) && v@.len() == 0
    } else if !all_tokens_ok(s, seps) {
        r == Err::<Vec<i64>, AddError>(AddError::NaN)
    } else if negatives_of(parsed_values(s, seps)).len() > 0 {
        r matches Err(AddError::HasNegative(l)) && int_view(l@) == negatives_of(
            parsed_values(s, seps),
        )
    } else {
        r matches Ok(v) && int_view(v@) == normalized(parsed_values(s, seps))
    }
}

/// The tokenizer over a character sequence: split on the separator class,
/// trim each raw token, parse it, then run the negative check and the
/// normalization pass.
fn tokenize_core(chars: &Vec<char>, seps: &Vec<char>) -> (r: Result<Vec<i64>, AddError>)
    ensures
        tokenize_post(chars@, seps@, r),
{
    let ghost s: Seq<char> = chars@;
    let n: usize = chars.len();
    if n == 0 {
        return Ok(Vec::new());
    }
    let mut nums: Vec<i64> = Vec::new();
    let mut cur: Vec<char> = Vec::new();
    let mut i: usize = 0;
    proof {
        assert(s.take(0) =~= Seq::<char>::empty());
        assert(split_on(s.take(0), seps@) == seq![Seq::<char>::empty()]);
    }
    while i < n
        invariant
            i <= n,
            n == s.len(),
            s == chars@,
            split_on(s.take(i as int), seps@).len() == nums@.len() + 1,
            cur@ == split_on(s.take(i as int), seps@).last(),
            forall|k: int|
                0 <= k < nums@.len() ==> {
                    let tok = trim_spaces(#[trigger] split_on(s.take(i as int), seps@)[k]);
                    parse_ok(tok) && nums@[k] as int == parse_val(tok)
                },
        decreases n - i,
    {
        let ghost sp: Seq<Seq<char>> = split_on(s.take(i as int), seps@);
        let c: char = chars[i];
        if contains_char(seps, c) {
            let trimmed: Vec<char> = trim_spaces_exec(&cur);
            match parse_i64(&trimmed) {
                Option::None => {
                    proof {
                        let j = nums@.len() as int;
                        lemma_split_on_append(s.take(i as int), s.skip(i as int), seps@);
                        lemma_split_on_len(s.skip(i as int), seps@);
                        assert(s.take(i as int) + s.skip(i as int) =~= s);
                        assert(s.skip(i as int)[0] == c);
                        assert(split_on(s.skip(i as int), seps@)[0] =~= Seq::<char>::empty());
                        assert(split_on(s, seps@)[j] =~= sp.last());
                        assert(tokens_of(s, seps@)[j] == trim_spaces(cur@));
                        assert(!parse_ok(tokens_of(s, seps@)[j]));
                        assert(!all_tokens_ok(s, seps@));
                    }
                    return Err(AddError::NaN);
                }
                Option::Some(v) => {
                    nums.push(v);
                    cur = Vec::new();
                    proof {
                        lemma_split_on_step_sep(s, seps@, i as int);
                        assert(split_on(s.take(i as int + 1), seps@) == sp.push(
                            Seq::<char>::empty(),
                        ));
                        assert(sp.push(Seq::<char>::empty()).last() =~= Seq::<char>::empty());
                        assert forall|k: int| 0 <= k < nums@.len() implies {
                            let tok = trim_spaces(
                                #[trigger] split_on(s.take(i as int + 1), seps@)[k],
                            );
                            parse_ok(tok) && nums@[k] as int == parse_val(tok)
                        } by {
                            assert(split_on(s.take(i as int + 1), seps@)[k] == sp[k]);
                            if k < nums@.len() - 1 {
                                assert(parse_ok(trim_spaces(sp[k])));
                            } else {
                                assert(sp[k] == sp.last());
                            }
                        }
                    }
                }
            }
        } else {
            cur.push(c);
            proof {
                lemma_split_on_step_char(s, seps@, i as int);
                let sp1 = sp.drop_last().push(sp.last().push(s[i as int]));
                assert(split_on(s.take(i as int + 1), seps@) == sp1);
                assert(sp1.last() == cur@);
                assert(sp1.len() == sp.len());
                assert forall|k: int| 0 <= k < nums@.len() implies {
                    let tok = trim_spaces(#[trigger] split_on(s.take(i as int + 1), seps@)[k]);
                    parse_ok(tok) && nums@[k] as int == parse_val(tok)
                } by {
                    assert(sp1[k] == sp.drop_last()[k]);
                    assert(sp1[k] == sp[k]);
                }
            }
        }
        i = i + 1;
    }
    proof {
        assert(s.take(n as int) =~= s);
    }
    let ghost spf: Seq<Seq<char>> = split_on(s, seps@);
    let trimmed: Vec<char> = trim_spaces_exec(&cur);
    match parse_i64(&trimmed) {
        Option::None => {
            proof {
                let j = nums@.len() as int;
                assert(spf[j] == cur@);
                assert(tokens_of(s, seps@)[j] == trim_spaces(cur@));
                assert(!parse_ok(tokens_of(s, seps@)[j]));
                assert(!all_tokens_ok(s, seps@));
            }
            return Err(AddError::NaN);
        }
        Option::Some(v) => {
            nums.push(v);
            proof {
                let j = nums@.len() - 1;
                assert(spf[j] == cur@);
                assert forall|k: int| 0 <= k < tokens_of(s, seps@).len() implies parse_ok(
                    #[trigger] tokens_of(s, seps@)[k],
                ) by {
                    assert(tokens_of(s, seps@)[k] == trim_spaces(spf[k]));
                    if k < j {
                        assert(parse_ok(trim_spaces(spf[k])));
                    }
                }
                assert(all_tokens_ok(s, seps@));
                assert forall|k: int| 0 <= k < nums@.len() implies int_view(nums@)[k]
                    == parsed_values(s, seps@)[k] by {
                    assert(tokens_of(s, seps@)[k] == trim_spaces(spf[k]));
                    assert(parsed_values(s, seps@)[k] == parse_val(tokens_of(s, seps@)[k]));
                }
                assert(int_view(nums@) =~= parsed_values(s, seps@));
            }
        }
    }
    match check_negatives(&nums) {
        Result::Err(e) => {
            return Err(e);
        }
        Result::Ok(_) => {},
    }
    let ghost nums_view: Seq<i64> = nums@;
    let out: Vec<i64> = normalize_numbers(nums);
    proof {
        assert(int_view(out@) == normalized(int_view(nums_view)));
    }
    Ok(out)
}

/// The tokenizer on text: splits on the separator class, trims each token,
/// parses it, and runs the negative check and the normalization pass.
pub fn tokenizer(input: &str, seps: &Vec<char>) -> (r: Result<Vec<i64>, AddError>)
    ensures
        tokenize_post(input@, seps@, r),
{
    let chars: Vec<char> = to_char_vec(input);
    tokenize_core(&chars, seps)
}

/// The sum of values that all lie in [0, 1000], clamped to the i64 range.
/// Only the upper bound can act, since no value is negative.
fn sum_clamped(ns: &Vec<i64>) -> (r: i64)
    requires
        forall|k: int| 0 <= k < ns@.len() ==> 0 <= #[trigger] ns@[k] <= 1000,
    ensures
        r as int == clamp_to_i64(sum_of(int_view(ns@))),
{
    let ghost vt: Seq<int> = int_view(ns@);
    let n: usize = ns.len();
    let mut acc: i64 = 0;
    let mut i: usize = 0;
    proof {
        assert(vt.take(0) =~= Seq::<int>::empty());
    }
    while i < n
        invariant
            i <= n,
            n == ns@.len(),
            vt == int_view(ns@),
            forall|k: int| 0 <= k < ns@.len() ==> 0 <= #[trigger] ns@[k] <= 1000,
            sum_of(vt.take(i as int)) >= 0,
            acc as int == clamp_to_i64(sum_of(vt.take(i as int))),
        decreases n - i,
    {
        let v: i64 = ns[i];
        proof {
            assert(vt.take(i as int + 1).drop_last() =~= vt.take(i as int));
            assert(vt.take(i as int + 1).last() == v as int);
            assert(0 <= ns@[i as int] <= 1000);
        }
        if acc > i64::MAX - v {
            acc = i64::MAX;
        } else {
            acc = acc + v;
        }
        i = i + 1;
    }
    proof {
        assert(vt.take(n as int) =~= vt);
    }
    acc
}

/// One run of the pipeline for a fixed separator set: the
/// consecutive-separator check, the tokenizer, then the clamped sum.
fn pipeline_core(chars: &Vec<char>, seps: &Vec<char>) -> (r: Result<i64, AddError>)
    ensures
        result_model(r) == clamped(spec_pipeline(chars@, seps@)),
{
    let ghost s: Seq<char> = chars@;
    if scan_seps_exec(chars, seps) {
        return Err(AddError::ConsecutiveSeparators);
    }
    let nums: Vec<i64> = match tokenize_core(chars, seps) {
        Result::Ok(v) => v,
        Result::Err(e) => {
            return Err(e);
        }
    };
    proof {
        if s.len() == 0 {
            assert(int_view(nums@) =~= Seq::<int>::empty());
        } else {
            lemma_negatives_empty(parsed_values(s, seps@));
            assert forall|k: int| 0 <= k < nums@.len() implies 0 <= #[trigger] nums@[k]
                <= 1000 by {
                assert(int_view(nums@)[k] == nums@[k] as int);
                assert(parsed_values(s, seps@)[k] >= 0);
                assert(normalized(parsed_values(s, seps@))[k] == if parsed_values(s, seps@)[k]
                    <= 1000 {
                    parsed_values(s, seps@)[k]
                } else {
                    0
                });
            }
        }
    }
    let total: i64 = sum_clamped(&nums);
    Ok(total)
}

/// The default-separator path: comma and newline, interchangeable.
pub fn handle_default_seperator(input: &str) -> (r: Result<i64, AddError>)
    ensures
        result_model(r) == clamped(spec_pipeline(input@, default_seps())),
{
    let chars: Vec<char> = to_char_vec(input);
    let mut seps: Vec<char> = Vec::new();
    seps.push(',');
    seps.push('\n');
    proof {
        assert(seps@ =~= default_seps());
    }
    pipeline_core(&chars, &seps)
}

/// The custom-separator path: the separator is the character after `//`,
/// and the list begins after the four header characters. A header too
/// short to name a separator is invalid input.
pub fn handle_custom_separator(input: &str) -> (r: Result<i64, AddError>)
    ensures
        input@.len() < 3 ==> r == Err::<i64, AddError>(AddError::InvalidInput),
        input@.len() >= 3 ==> result_model(r) == clamped(
            spec_pipeline(rest_after_header(input@), seq![input@[2]]),
        ),
{
    let ghost s: Seq<char> = input@;
    let chars: Vec<char> = to_char_vec(input);
    let n: usize = chars.len();
    if n < 3 {
        return Err(AddError::InvalidInput);
    }
    let sep: char = chars[2];
    let mut seps: Vec<char> = Vec::new();
    seps.push(sep);
    proof {
        assert(seps@ =~= seq![s[2]]);
    }
    let mut rest: Vec<char> = Vec::new();
    if n > 4 {
        let mut i: usize = 4;
        while i < n
            invariant
                4 <= i <= n,
                n == s.len(),
                s == chars@,
                rest@ == s.subrange(4, i as int),
            decreases n - i,
        {
            let c: char = chars[i];
            rest.push(c);
            i = i + 1;
            proof {
                assert(rest@ =~= s.subrange(4, i as int));
            }
        }
        proof {
            assert(rest@ =~= rest_after_header(s));
        }
    } else {
        proof {
            assert(rest@ =~= rest_after_header(s));
        }
    }
    pipeline_core(&rest, &seps)
}

/// The entry operation: sums the delimited list of numbers in the input,
/// or reports the first applicable classified error. The contract pins
/// the result to the model's outcome on every input; no input panics.
pub fn add(input: &str) -> (r: Result<i64, AddError>)
    ensures
        add_post(input@, r),
{
    let n: usize = input.unicode_len();
    if n >= 2 && input.get_char(0) == '/' && input.get_char(1) == '/' {
        proof {
            assert(has_custom_header(input@));
        }
        handle_custom_separator(input)
    } else {
        proof {
            assert(!has_custom_header(input@));
        }
        handle_default_seperator(input)
    }
}

} // verus!
