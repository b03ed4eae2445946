use calculator::ast::Node;
use calculator::errors::Error;
use calculator::lexer::{Lexer, Token, TokenType};
use calculator::parser::Numeral;
use calculator::validation::Validation;

fn digits_value(digits: &[u8]) -> f64 {
    digits.iter().fold(0.0, |acc, d| acc * 10.0 + *d as f64)
}

fn value(n: &Numeral) -> f64 {
    let magnitude = match &n.fraction {
        Some(f) => digits_value(&n.whole) + digits_value(f) / 10_f64.powf(f.len() as f64),
        None => digits_value(&n.whole),
    };
    if n.negative {
        -magnitude
    } else {
        magnitude
    }
}

/// Evaluates a tree in `f64`.
fn eval(node: &Node) -> Result<f64, Error> {
    match node {
        Node::Child(n) => Ok(value(n)),
        Node::Parent(op, left, right) => {
            let l = eval(left)?;
            let r = eval(right)?;
            match op {
                TokenType::Plus => Ok(l + r),
                TokenType::Minus => Ok(l - r),
                TokenType::Multiply => Ok(l * r),
                TokenType::Divide => {
                    if r != 0.0 {
                        Ok(l / r)
                    } else {
                        Err(Error::DivideByZero)
                    }
                }
                _ => unreachable!(),
            }
        }
    }
}

/// The tree written as text, with every operation in parentheses.
fn shape(node: &Node) -> String {
    match node {
        Node::Child(n) => format!("{}", value(n)),
        Node::Parent(op, left, right) => {
            let o = match op {
                TokenType::Plus => "+",
                TokenType::Minus => "-",
                TokenType::Multiply => "*",
                TokenType::Divide => "/",
                _ => "?",
            };
            format!("({}{}{})", shape(left), o, shape(right))
        }
    }
}

fn tokens_of(text: &str) -> Vec<Token> {
    Lexer { validate_input: text.chars().collect(), position: 0 }.tokenize().unwrap()
}

#[test]
fn test_eval() {
    let tokens = Lexer {
        validate_input: vec!['1', '+', '2', '*', '3'],
        position: 0,
    }
    .tokenize()
    .unwrap();
    let tree = Node::build_tree(&tokens);
    assert_eq!(eval(&tree).unwrap(), 7.0)
}

#[test]
fn test_div_minus() {
    let tokens = Lexer {
        validate_input: vec!['2', '0', '/', '2', '-', '5'],
        position: 0,
    }
    .tokenize()
    .unwrap();
    let tree = Node::build_tree(&tokens);
    assert_eq!(eval(&tree).unwrap(), 5.0)
}

#[test]
fn test_all_ops() {
    let tokens = Lexer {
        validate_input: vec!['2', '0', '+', '5', '-', '1', '0', '*', '2', '/', '6'],
        position: 0,
    }
    .tokenize()
    .unwrap();
    let tree = Node::build_tree(&tokens);
    assert_eq!(eval(&tree).unwrap(), 21.666666666666668)
}

#[test]
fn test_parens() {
    let tokens = Lexer {
        validate_input: vec!['(', '2', '0', '+', '5', ')', '*', '2'],
        position: 0,
    }
    .tokenize()
    .unwrap();
    let tree = Node::build_tree(&tokens);
    assert_eq!(eval(&tree).unwrap(), 50.0)
}

#[test]
fn test_nested_parens() {
    let tokens = Lexer {
        validate_input: vec!['(', '(', '2', '+', '3', ')', '*', '4', ')'],
        position: 0,
    }
    .tokenize()
    .unwrap();
    let tree = Node::build_tree(&tokens);
    assert_eq!(eval(&tree).unwrap(), 20.0);
}

#[test]
fn test_negative_in_expr() {
    let tokens = Lexer {
        validate_input: vec!['-', '5', '+', '3'],
        position: 0,
    }
    .tokenize()
    .unwrap();
    let tree = Node::build_tree(&tokens);
    assert_eq!(eval(&tree).unwrap(), -2.0);
}

#[test]
fn test_float_expr() {
    let tokens = Lexer {
        validate_input: vec!['1', '.', '5', '*', '2'],
        position: 0,
    }
    .tokenize()
    .unwrap();
    let tree = Node::build_tree(&tokens);
    assert_eq!(eval(&tree).unwrap(), 3.0);
}

#[test]
fn divider_zero() {
    let tokens = Lexer {
        validate_input: vec!['1', '.', '5', '/', '0'],
        position: 0,
    }
    .tokenize()
    .unwrap();
    let tree = Node::build_tree(&tokens);
    assert!(eval(&tree).is_err());
}

// `*` and `/` bind tighter than `+` and `-`; equal priorities group to the left.
#[test]
fn precedence_and_grouping() {
    assert_eq!(shape(&Node::build_tree(&tokens_of("1+2*3"))), "(1+(2*3))");
    assert_eq!(shape(&Node::build_tree(&tokens_of("1*2+3"))), "((1*2)+3)");
    assert_eq!(shape(&Node::build_tree(&tokens_of("1-2-3"))), "((1-2)-3)");
    assert_eq!(shape(&Node::build_tree(&tokens_of("8/4/2"))), "((8/4)/2)");
    assert_eq!(shape(&Node::build_tree(&tokens_of("1-2+3"))), "((1-2)+3)");
}

// Parentheses around a complete expression do not change its tree.
#[test]
fn parentheses_keep_the_tree() {
    let plain = shape(&Node::build_tree(&tokens_of("1+2*3")));
    assert_eq!(shape(&Node::build_tree(&tokens_of("(1+2*3)"))), plain);
    assert_eq!(shape(&Node::build_tree(&tokens_of("((1+2*3))"))), plain);
    assert_eq!(shape(&Node::build_tree(&tokens_of("(1+2)*3"))), "((1+2)*3)");
}

// What follows a complete expression, when it does not start with an
// operator, is ignored.
#[test]
fn tokens_after_the_expression_are_ignored() {
    assert_eq!(shape(&Node::build_tree(&tokens_of("(1+2)(4)"))), "(1+2)");
}

// A minus after a closing parenthesis is a subtraction.
#[test]
fn minus_after_group_subtracts() {
    let tree = Node::build_tree(&tokens_of("(1)-2"));
    assert_eq!(shape(&tree), "(1-2)");
    assert_eq!(eval(&tree).unwrap(), -1.0);
}

#[test]
fn try_build_tree_finds_where_tokens_run_out() {
    let lexer = Validation::pre_validate("(5+)").unwrap();
    let tokens = lexer.tokenize().unwrap();
    assert!(Node::try_build_tree(&tokens).is_none());
    assert!(Node::try_build_tree(&[]).is_none());
    let tokens = tokens_of("2*(3+4)");
    let tree = Node::try_build_tree(&tokens).unwrap();
    assert_eq!(eval(&tree).unwrap(), 14.0);
}

#[test]
fn any_other_token_opens_a_group() {
    // A closing parenthesis where a number may stand opens a group too.
    assert_eq!(shape(&Node::build_tree(&tokens_of(")1+2)*3"))), "((1+2)*3)");
}
