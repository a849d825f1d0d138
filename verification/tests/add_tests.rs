use string_calculator::AddError;

#[test]
fn test_add() {
    assert_eq!(string_calculator::add(""), Ok(0));
    assert_eq!(string_calculator::add("0"), Ok(0));
    assert_eq!(string_calculator::add("1"), Ok(1));
    assert_eq!(string_calculator::add("0, 1"), Ok(1));
    assert_eq!(string_calculator::add("0, 1,  2"), Ok(3));
    assert_eq!(string_calculator::add("0, 1,  2, 3"), Ok(6));
    assert_eq!(string_calculator::add("1\n2,3"), Ok(6));
    assert_eq!(
        string_calculator::add("1,\n"),
        Err(AddError::ConsecutiveSeparators)
    );
    assert_eq!(
        string_calculator::add("1\n,2"),
        Err(AddError::ConsecutiveSeparators)
    );
    assert_eq!(string_calculator::add("//"), Err(AddError::InvalidInput));
    assert_eq!(string_calculator::add("//;\n1;2"), Ok(3));
    assert_eq!(string_calculator::add("//h\n1h3"), Ok(4));
    assert_eq!(string_calculator::add("//\n\n1\n4"), Ok(5));
    assert_eq!(
        string_calculator::add("//\n\n1\n\n2"),
        Err(AddError::ConsecutiveSeparators)
    );
    assert_eq!(
        string_calculator::add("//;\n1;2;-3"),
        Err(AddError::HasNegative(vec![-3]))
    );
    assert_eq!(
        string_calculator::add("0, 1, 2, -3"),
        Err(AddError::HasNegative(vec![-3]))
    );
    assert_eq!(
        string_calculator::add("0, 1, -2, -3"),
        Err(AddError::HasNegative(vec![-2, -3]))
    );
    assert_eq!(string_calculator::add("//;\n1;2000"), Ok(1));
    assert_eq!(string_calculator::add("0, 1, 2000, 1001"), Ok(1));
}

#[test]
fn same_input_same_result() {
    let first = string_calculator::add("3, 4,\n5");
    let second = string_calculator::add("3, 4,\n5");
    assert_eq!(first, second);
    let first_err = string_calculator::add("1,-2");
    let second_err = string_calculator::add("1,-2");
    assert_eq!(first_err, second_err);
}

#[test]
fn sum_order_does_not_matter() {
    assert_eq!(string_calculator::add("12,7"), string_calculator::add("7,12"));
    assert_eq!(string_calculator::add("12,7"), Ok(19));
    assert_eq!(string_calculator::add("0,999"), string_calculator::add("999,0"));
    assert_eq!(
        string_calculator::add("1000,1"),
        string_calculator::add("1,1000")
    );
    assert_eq!(string_calculator::add("1000,1"), Ok(1001));
}

#[test]
fn negatives_reported_in_order() {
    assert_eq!(
        string_calculator::add("-5, 3, -1"),
        Err(AddError::HasNegative(vec![-5, -1]))
    );
    assert_eq!(
        string_calculator::add("-1,-2,-3"),
        Err(AddError::HasNegative(vec![-1, -2, -3]))
    );
}

#[test]
fn values_above_one_thousand_become_zero() {
    assert_eq!(string_calculator::add("2,1001"), Ok(2));
    assert_eq!(string_calculator::add("1000,1001"), Ok(1000));
    assert_eq!(string_calculator::add("1001"), Ok(0));
    assert_eq!(string_calculator::add("9223372036854775807"), Ok(0));
}

#[test]
fn trailing_separator_is_consecutive() {
    assert_eq!(
        string_calculator::add("1,"),
        Err(AddError::ConsecutiveSeparators)
    );
    assert_eq!(
        string_calculator::add("1, "),
        Err(AddError::ConsecutiveSeparators)
    );
    assert_eq!(
        string_calculator::add(" , "),
        Err(AddError::ConsecutiveSeparators)
    );
}

#[test]
fn unparseable_tokens_are_nan() {
    assert_eq!(string_calculator::add("abc"), Err(AddError::NaN));
    assert_eq!(string_calculator::add("1,a"), Err(AddError::NaN));
    assert_eq!(string_calculator::add("5 6"), Err(AddError::NaN));
    assert_eq!(string_calculator::add("-"), Err(AddError::NaN));
    assert_eq!(string_calculator::add("1.5"), Err(AddError::NaN));
}

#[test]
fn sixty_four_bit_bounds() {
    // The most negative value parses and is reported as negative.
    assert_eq!(
        string_calculator::add("-9223372036854775808"),
        Err(AddError::HasNegative(vec![i64::MIN]))
    );
    // One past either bound does not parse.
    assert_eq!(
        string_calculator::add("9223372036854775808"),
        Err(AddError::NaN)
    );
    assert_eq!(
        string_calculator::add("-9223372036854775809"),
        Err(AddError::NaN)
    );
    // An explicit plus sign is part of the integer grammar.
    assert_eq!(string_calculator::add("+5,2"), Ok(7));
}

#[test]
fn custom_separator_variants() {
    // A bare header with an empty list sums to zero.
    assert_eq!(string_calculator::add("//;"), Ok(0));
    assert_eq!(string_calculator::add("//;\n"), Ok(0));
    // A digit can serve as the separator.
    assert_eq!(string_calculator::add("//1\n213"), Ok(5));
    // A space can serve as the separator.
    assert_eq!(string_calculator::add("// \n1 2"), Ok(3));
    // Doubling a space separator leaves an empty token, which is not a
    // number (the scan ignores spaces, so it is not a separator clash).
    assert_eq!(string_calculator::add("// \n1  2"), Err(AddError::NaN));
    // The fourth header character is skipped without being checked.
    assert_eq!(string_calculator::add("//;X1;2"), Ok(3));
}

#[test]
fn arbitrary_text_returns_a_value() {
    let inputs = [
        "///",
        "\\",
        "//;\n;;",
        "\u{1F600},\u{1F600}",
        "////\n//",
        ",",
        "\n",
        " ",
        "--1",
        "+",
        "0x10",
        "//\u{00e9}\n1\u{00e9}2",
    ];
    for input in inputs {
        // Every outcome is a classified value; no input panics.
        let _ = string_calculator::add(input);
    }
    assert_eq!(string_calculator::add("//\u{00e9}\n1\u{00e9}2"), Ok(3));
}
