use calculator::errors::Error;
use calculator::validation::Validation;

#[test]
fn empty_string() {
    let args = "";
    assert!(Validation::pre_validate(&args).is_err());
}

#[test]
fn string_with_alpha() {
    let args = "a+5+8+9";
    assert!(Validation::pre_validate(&args).is_err());
}

#[test]
fn test_invalid_operator_pairs() {
    let invalid_cases = [
        "+*", "*+", "6+*3", "-*", "7/*8", "7+5*/5", "+-/*", "5/*", "+/*", "/+", "/***", "/=",
    ];

    for case in &invalid_cases {
        assert!(Validation::pre_validate(case).is_err());
    }
}

#[test]
fn test_double_dots_and_repeats() {
    let invalid_cases = [
        "//",
        "..",
        "++",
        "**",
        "************",
        "4..+",
        "9++",
        "7/5//9",
        "4**7",
        "==",
        "22-44++2",
    ];

    for case in &invalid_cases {
        assert!(
            Validation::pre_validate(case).is_err(),
            "Should fail for lone symbol: {:?}",
            case
        );
    }
}

#[test]
fn test_misplaced_equals() {
    let invalid_cases = ["=5+2", "2+2=4+4"];

    for case in &invalid_cases {
        assert!(
            Validation::pre_validate(case).is_err(),
            "Should fail for misplaced '=': {:?}",
            case
        );
    }
}

#[test]
fn test_trailing_operators() {
    let invalid_cases = ["5+", "10.", "-3*", "*5", "5 + 5/ ", "+10", "/10*11"];

    for case in &invalid_cases {
        assert!(
            Validation::pre_validate(case).is_err(),
            "Should fail for lone symbol: {:?}",
            case
        );
    }
}

#[test]
fn test_only_symbols() {
    let invalid_cases = [".", "-", "+", "="];

    for case in &invalid_cases {
        assert!(
            Validation::pre_validate(case).is_err(),
            "Should fail for lone symbol: {:?}",
            case
        );
    }
}

#[test]
fn valid_expression_with_operators() {
    let valid_cases = ["8 + 9.12 / 5", "1 + 2", "3*4", "10-5", "8/2"];

    for case in &valid_cases {
        assert!(
            Validation::pre_validate(case).is_ok(),
            "Should pass for: {:?}",
            case
        );
    }
}

#[test]
fn valid_cases() {
    let valid_cases = vec![
        vec!['(', ')'],
        vec!['(', '(', ')', ')'],
        vec!['(', '1', '+', '2', ')'],
        vec!['(', '(', '1', '+', '2', ')', '*', '3', ')'],
    ];

    for case in &valid_cases {
        assert!(Validation::valid_parentheses(case).is_ok());
    }
}

#[test]
fn unmatched_open_paren() {
    let invalid_cases = vec![vec!['(', '1', '+', '2'], vec!['(', '(', '1', '+', '2', ')']];

    for case in &invalid_cases {
        assert!(
            Validation::valid_parentheses(case).is_err(),
            "Should fail for: {:?}",
            case
        );
    }
}

#[test]
fn unmatched_close_paren() {
    let invalid_cases = vec![vec!['1', '+', '2', ')'], vec!['(', '1', '+', '2', ')', ')']];

    for case in &invalid_cases {
        assert!(
            Validation::valid_parentheses(case).is_err(),
            "Should fail for: {:?}",
            case
        );
    }
}

#[test]
fn interleaved_parens() {
    let invalid_cases = vec![vec![')', '('], vec![')', '1', '+', '2', '(']];

    for case in &invalid_cases {
        assert!(
            Validation::valid_parentheses(case).is_err(),
            "Should fail for: {:?}",
            case
        );
    }
}

// Each error of the validation, on an input that gives it.

#[test]
fn each_validation_error() {
    assert_eq!(Validation::pre_validate("2*()").err(), Some(Error::EmptyParens));
    assert_eq!(Validation::pre_validate("   ").err(), Some(Error::EmptyInput));
    assert_eq!(Validation::pre_validate("2+x").err(), Some(Error::InvalidCharacter));
    assert_eq!(Validation::pre_validate("2+").err(), Some(Error::NotValidData));
    assert_eq!(Validation::pre_validate("2+*3").err(), Some(Error::NotValidData));
    assert_eq!(Validation::pre_validate("(2+3").err(), Some(Error::UnmatchedOpenParen));
    assert_eq!(Validation::pre_validate("2+3)").err(), Some(Error::UnmatchedCloseParen));
    assert_eq!(Validation::pre_validate(")2(").err(), Some(Error::UnmatchedCloseParen));
}

#[test]
fn checks_come_in_order() {
    // The empty pair is seen in the raw input, before anything else.
    assert_eq!(Validation::pre_validate("x()").err(), Some(Error::EmptyParens));
    // Characters are checked before the first and last ones.
    assert_eq!(Validation::pre_validate("+x").err(), Some(Error::InvalidCharacter));
    // The ends are checked before the parentheses.
    assert_eq!(Validation::pre_validate("(1+").err(), Some(Error::NotValidData));
    // Parentheses are checked before the pairs.
    assert_eq!(Validation::pre_validate("(1+*2").err(), Some(Error::UnmatchedOpenParen));
}

#[test]
fn white_space_is_removed() {
    let lexer = Validation::pre_validate(" 1 +\t2\n").unwrap();
    assert_eq!(lexer.validate_input, vec!['1', '+', '2']);
    assert_eq!(lexer.position, 0);
    // A space between the parentheses hides the empty pair from the raw check.
    let lexer = Validation::pre_validate("( )").unwrap();
    assert_eq!(lexer.validate_input, vec!['(', ')']);
}

#[test]
fn non_ascii_numerals_are_numeric() {
    let lexer = Validation::pre_validate("٣+1").unwrap();
    assert_eq!(lexer.validate_input, vec!['٣', '+', '1']);
}

#[test]
fn minus_pairs_are_allowed() {
    assert!(Validation::pre_validate("5--3").is_ok());
    assert!(Validation::pre_validate("5*-3").is_ok());
    assert_eq!(Validation::pre_validate("5-+3").err(), Some(Error::NotValidData));
}

#[test]
fn validate_chars_takes_the_numeric_flags() {
    let lexer = Validation::validate_chars(vec!['1', '+', 'x'], &vec![true, false, true]);
    assert_eq!(lexer.unwrap().validate_input, vec!['1', '+', 'x']);
    let refused = Validation::validate_chars(vec!['1', '+', 'x'], &vec![true, false, false]);
    assert_eq!(refused.err(), Some(Error::InvalidCharacter));
}

#[test]
fn validated_input_is_balanced() {
    let lexer = Validation::pre_validate("((1+2)*3)-(4)").unwrap();
    assert!(Validation::valid_parentheses(&lexer.validate_input).is_ok());
    assert!(lexer.validate_input.iter().all(|c| !c.is_whitespace()));
}
