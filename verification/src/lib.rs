//! Arithmetic expression calculator: input validation, tokenizing, number
//! parsing and syntax-tree construction.
pub mod ast;
pub mod errors;
pub mod lexer;
pub mod parser;
pub mod validation;

pub use crate::ast::Node;
pub use crate::errors::Error;
pub use crate::validation::Validation;

use vstd::prelude::*;

verus! {

/// Picks the expression out of the command-line arguments: there must be
/// exactly one.
///
/// # Errors
///
/// Returns [`Error::EmptyInput`] where there is no argument, and
/// [`Error::TooManyArgs`] where there is more than one.
pub fn select_input(args: &Vec<String>) -> (res: Result<&String, Error>)
    ensures
        args@.len() == 0 ==> res == Err::<&String, Error>(Error::EmptyInput),
        args@.len() > 1 ==> res == Err::<&String, Error>(Error::TooManyArgs),
        args@.len() == 1 ==> res == Ok::<&String, Error>(&args@[0]),
{
    if args.len() == 0 {
        return Err(Error::EmptyInput);
    }
    if args.len() > 1 {
        return Err(Error::TooManyArgs);
    }
    Ok(&args[0])
}

} // verus!
