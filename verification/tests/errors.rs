use calculator::errors::Error;
use calculator::select_input;

#[test]
fn messages() {
    assert_eq!(
        Error::TooManyArgs.to_string(),
        "Parsing error: Too many arguments. Use double quotes for the expression."
    );
    assert_eq!(Error::NotValidData.to_string(), "Parsing error: The provided data format is invalid");
    assert_eq!(
        Error::EmptyInput.to_string(),
        "Parsing error: No input provided. Please wrap your expression in quotes"
    );
    assert_eq!(Error::InvalidCharacter.to_string(), "Parsing error: Input contains non-numeric characters");
    assert_eq!(
        Error::MultipleDots.to_string(),
        "Parsing error: Number cannot have more than one decimal point"
    );
    assert_eq!(Error::TrailingSeparator.to_string(), "Parsing error: Number cannot end with a decimal point");
    assert_eq!(Error::UnmatchedOpenParen.to_string(), "Parsing error: Missing closing parenthesis");
    assert_eq!(Error::UnmatchedCloseParen.to_string(), "Parsing error: Unexpected closing parenthesis");
    assert_eq!(Error::EmptyParens.to_string(), "Parsing error: Empty parentheses are not allowed");
    assert_eq!(Error::DivideByZero.to_string(), "Parsing error: Cannot divide by zero");
}

#[test]
fn argument_count() {
    let none: Vec<String> = vec![];
    assert_eq!(select_input(&none).err(), Some(Error::EmptyInput));
    let two = vec!["1".to_string(), "2".to_string()];
    assert_eq!(select_input(&two).err(), Some(Error::TooManyArgs));
    let one = vec!["1 + 2".to_string()];
    assert_eq!(select_input(&one).unwrap(), "1 + 2");
}
