use lambda_calculator::errors::LambdaError;
use lambda_calculator::naming::NameSpace;
use lambda_calculator::text::{chars_of, decimal, is_number, number_value, text_of, trim};
use std::collections::HashMap;

#[test]
fn numbers_are_written_in_decimal() {
    assert_eq!(decimal(0), "0");
    assert_eq!(decimal(7), "7");
    assert_eq!(decimal(10), "10");
    assert_eq!(decimal(255), "255");
    assert_eq!(decimal(1234567890), "1234567890");
    assert_eq!(decimal(usize::MAX), usize::MAX.to_string());
}

#[test]
fn numerals_are_recognised() {
    assert!(is_number("0"));
    assert!(is_number("0123456789"));
    assert!(!is_number(""));
    assert!(!is_number("12a"));
    assert!(!is_number("-1"));
    assert!(!is_number("+1"));
    assert!(!is_number("١٢"));
}

#[test]
fn numerals_are_read() {
    assert_eq!(number_value("0"), Some(0));
    assert_eq!(number_value("000255"), Some(255));
    assert_eq!(number_value("1234567890"), Some(1234567890));
    assert_eq!(number_value(&usize::MAX.to_string()), Some(usize::MAX));
    assert_eq!(number_value(&(usize::MAX.to_string() + "0")), None);
    assert_eq!(number_value("340282366920938463463374607431768211456"), None);
}

#[test]
fn white_space_is_trimmed_at_both_ends() {
    assert_eq!(trim("  a b \t\n"), "a b");
    assert_eq!(trim("a"), "a");
    assert_eq!(trim(""), "");
    assert_eq!(trim(" \u{a0}\u{2003} "), "");
    assert_eq!(trim("\u{3000}λ x\u{2028}"), "λ x");
}

#[test]
fn texts_and_their_characters() {
    assert_eq!(chars_of("aλb"), vec!['a', 'λ', 'b']);
    assert_eq!(chars_of(""), Vec::<char>::new());
    assert_eq!(text_of(&vec!['a', 'λ', 'b', 'c'], 1, 3), "λb");
    assert_eq!(text_of(&vec!['a'], 1, 1), "");
}

#[test]
fn every_failure_has_its_line() {
    assert_eq!(
        LambdaError::UnexpectedCharacter('λ').message(),
        "syntax error: unexpected 'λ' character"
    );
    assert_eq!(
        LambdaError::InvalidName("1a".to_string()).message(),
        "syntax error: \"1a\" is not a valid variable name"
    );
    assert_eq!(
        LambdaError::IncompleteFunction.message(),
        "syntax error: incomplete lambda function declaration at the end of the expression"
    );
    assert_eq!(
        LambdaError::InvalidKeyword("a b".to_string()).message(),
        "syntax error: \"a b\" is not a valid keyword"
    );
    assert_eq!(
        LambdaError::UnmatchedParenthesis.message(),
        "syntax error: closing parenthesis without matching open parenthesis"
    );
    assert_eq!(
        LambdaError::ReservedName("id".to_string()).message(),
        "naming error: \"id\" is reserved as a keyword, so it cannot be assigned to a variable"
    );
    assert_eq!(
        LambdaError::UnavailableName("x".to_string()).message(),
        "naming error: \"x\" has already been used as a function variable, so it cannot be used as a free term"
    );
    assert_eq!(
        LambdaError::ActiveName("x".to_string()).message(),
        "naming error: \"x\" cannot be assigned multiple times in the same function"
    );
    assert_eq!(
        LambdaError::NumberTooLarge(1000).message(),
        "input error: 1000 is greater than maximum integer limit (255)"
    );
    assert_eq!(
        LambdaError::InternalFailure.message(),
        "internal error: an unforeseen error has occurred"
    );
    assert_eq!(
        LambdaError::ExpressionSizeLimit.message(),
        "internal error: expression reached the maximum size limit"
    );
}

#[test]
fn the_registry_holds_names_counters_and_renames() {
    let mut renames = HashMap::new();
    renames.insert(2, 0);
    let mut space = NameSpace::new(
        vec!["a".to_string(), "b".to_string(), "$k$a".to_string()],
        vec![0, 3, 0],
        renames,
    );
    assert_eq!(space.len(), 3);
    assert_eq!(space.name(1), "b");
    assert_eq!(space.get_copies(), &vec![0, 3, 0]);
    assert_eq!(space.get_absolute_name_index(2), 0);
    assert_eq!(space.get_absolute_name_index(1), 1);
    assert_eq!(space.get_absolute_name_index(9), 9);
    space.get_mut_copies()[1] += 1;
    assert_eq!(space.get_copies(), &vec![0, 4, 0]);
    space.set_name(2, "c".to_string());
    assert_eq!(space.name(2), "c");
    assert_eq!(space.name(0), "a");
}

#[test]
fn the_limits() {
    assert_eq!(lambda_calculator::MAX_NUMBER_INPUT, 255);
    assert_eq!(lambda_calculator::MAX_OBJECT_DEPTH, 512);
    assert_eq!(lambda_calculator::MAX_STRING_LENGTH, 255);
}
