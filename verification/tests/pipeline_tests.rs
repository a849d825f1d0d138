use string_calculator::check_consecutive_separators;
use string_calculator::check_negatives;
use string_calculator::normalize_numbers;
use string_calculator::tokenizer;
use string_calculator::AddError;

#[test]
fn consecutive_separator_check_on_raw_text() {
    let seps = vec![',', '\n'];
    assert_eq!(check_consecutive_separators("1,2", &seps), Ok(()));
    assert_eq!(check_consecutive_separators("", &seps), Ok(()));
    assert_eq!(check_consecutive_separators("1 , 2", &seps), Ok(()));
    assert_eq!(
        check_consecutive_separators("1,,2", &seps),
        Err(AddError::ConsecutiveSeparators)
    );
    assert_eq!(
        check_consecutive_separators("1, ,2", &seps),
        Err(AddError::ConsecutiveSeparators)
    );
    assert_eq!(
        check_consecutive_separators("1,", &seps),
        Err(AddError::ConsecutiveSeparators)
    );
    let semicolon = vec![';'];
    assert_eq!(check_consecutive_separators("1,2", &semicolon), Ok(()));
    assert_eq!(
        check_consecutive_separators("1;;2", &semicolon),
        Err(AddError::ConsecutiveSeparators)
    );
}

#[test]
fn tokenizer_parses_trims_and_normalizes() {
    let seps = vec![',', '\n'];
    assert_eq!(tokenizer("", &seps), Ok(vec![]));
    assert_eq!(tokenizer(" 1 ,2\n3", &seps), Ok(vec![1, 2, 3]));
    assert_eq!(tokenizer("2,1001", &seps), Ok(vec![2, 0]));
    assert_eq!(tokenizer("1,x", &seps), Err(AddError::NaN));
    assert_eq!(tokenizer("1,,2", &seps), Err(AddError::NaN));
    assert_eq!(
        tokenizer("1,-2,-3", &seps),
        Err(AddError::HasNegative(vec![-2, -3]))
    );
}

#[test]
fn negative_check_collects_all_negatives() {
    assert_eq!(check_negatives(&vec![]), Ok(()));
    assert_eq!(check_negatives(&vec![0, 1, 2]), Ok(()));
    assert_eq!(
        check_negatives(&vec![4, -7, 2, -9]),
        Err(AddError::HasNegative(vec![-7, -9]))
    );
}

#[test]
fn normalization_clamps_above_one_thousand() {
    assert_eq!(normalize_numbers(vec![]), Vec::<i64>::new());
    assert_eq!(normalize_numbers(vec![0, 1000, 1001, 5]), vec![0, 1000, 0, 5]);
    assert_eq!(normalize_numbers(vec![i64::MAX]), vec![0]);
}
