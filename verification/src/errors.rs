//! Error types for the calculator's validation, lexing, parsing and evaluation.
use vstd::prelude::*;

verus! {

/// Every error that can occur during validation, parsing and evaluation.
#[derive(Debug, Clone, Copy, PartialEq, Eq, Structural)]
pub enum Error {
    /// More than one argument was given on the command line.
    TooManyArgs,
    /// The provided data is invalid.
    NotValidData,
    /// The input is empty.
    EmptyInput,
    /// The input contains a character that is neither numeric, an operator,
    /// a decimal point nor a parenthesis.
    InvalidCharacter,
    /// A number has more than one decimal point.
    MultipleDots,
    /// A number starts or ends with a decimal point, or is a lone sign.
    TrailingSeparator,
    /// An opening parenthesis has no matching closing parenthesis.
    UnmatchedOpenParen,
    /// A closing parenthesis has no matching opening parenthesis.
    UnmatchedCloseParen,
    /// The input contains an empty pair of parentheses `()`.
    EmptyParens,
    /// A divisor equals zero.
    DivideByZero,
}

/// The description of each error, without the common prefix.
pub open spec fn error_description(e: Error) -> Seq<char> {
    match e {
        Error::TooManyArgs => "Too many arguments. Use double quotes for the expression."@,
        Error::NotValidData => "The provided data format is invalid"@,
        Error::EmptyInput => "No input provided. Please wrap your expression in quotes"@,
        Error::InvalidCharacter => "Input contains non-numeric characters"@,
        Error::MultipleDots => "Number cannot have more than one decimal point"@,
        Error::TrailingSeparator => "Number cannot end with a decimal point"@,
        Error::UnmatchedOpenParen => "Missing closing parenthesis"@,
        Error::UnmatchedCloseParen => "Unexpected closing parenthesis"@,
        Error::EmptyParens => "Empty parentheses are not allowed"@,
        Error::DivideByZero => "Cannot divide by zero"@,
    }
}

/// The full text shown for an error.
pub open spec fn error_message(e: Error) -> Seq<char> {
    "Parsing error: "@ + error_description(e)
}

impl Error {
    /// The text that describes this error, `"Parsing error: "` followed by
    /// the error's description.
    pub fn to_string(&self) -> (s: String)
        ensures
            s@ == error_message(*self),
    {
        let description: &str = match self {
            Error::TooManyArgs => "Too many arguments. Use double quotes for the expression.",
            Error::NotValidData => "The provided data format is invalid",
            Error::EmptyInput => "No input provided. Please wrap your expression in quotes",
            Error::InvalidCharacter => "Input contains non-numeric characters",
            Error::MultipleDots => "Number cannot have more than one decimal point",
            Error::TrailingSeparator => "Number cannot end with a decimal point",
            Error::UnmatchedOpenParen => "Missing closing parenthesis",
            Error::UnmatchedCloseParen => "Unexpected closing parenthesis",
            Error::EmptyParens => "Empty parentheses are not allowed",
            Error::DivideByZero => "Cannot divide by zero",
        };
        let mut s = String::from_str("Parsing error: ");
        s.append(description);
        s
    }
}

/// Every error has a message of its own, and each begins with
/// `"Parsing error: "`.
pub proof fn lemma_messages_tell_errors_apart(e1: Error, e2: Error)
    ensures
        error_message(e1) == error_message(e2) ==> e1 == e2,
        error_message(e1).take(15) == "Parsing error: "@,
{
    reveal_strlit("Parsing error: ");
    reveal_strlit("Too many arguments. Use double quotes for the expression.");
    reveal_strlit("The provided data format is invalid");
    reveal_strlit("No input provided. Please wrap your expression in quotes");
    reveal_strlit("Input contains non-numeric characters");
    reveal_strlit("Number cannot have more than one decimal point");
    reveal_strlit("Number cannot end with a decimal point");
    reveal_strlit("Missing closing parenthesis");
    reveal_strlit("Unexpected closing parenthesis");
    reveal_strlit("Empty parentheses are not allowed");
    reveal_strlit("Cannot divide by zero");
    assert(error_message(e1).take(15) =~= "Parsing error: "@);
    assert(error_message(e1).len() == 15 + error_description(e1).len());
    assert(error_message(e2).len() == 15 + error_description(e2).len());
}

} // verus!
