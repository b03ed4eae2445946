use calculator::errors::Error;
use calculator::lexer::{Lexer, TokenType};
use calculator::parser::Numeral;
use calculator::validation::Validation;

/// A token type with the value of its number, as `f64`.
#[derive(Debug, PartialEq, Clone, Copy)]
enum Kind {
    Number(f64),
    Plus,
    Minus,
    Multiply,
    Divide,
    OpenParen,
    CloseParen,
    EOF,
}

fn digits_value(digits: &[u8]) -> f64 {
    digits.iter().fold(0.0, |acc, d| acc * 10.0 + *d as f64)
}

fn value(n: &Numeral) -> f64 {
    let magnitude = match &n.fraction {
        Some(f) => digits_value(&n.whole) + digits_value(f) / 10_f64.powf(f.len() as f64),
        None => digits_value(&n.whole),
    };
    if n.negative {
        -magnitude
    } else {
        magnitude
    }
}

fn kind(t: &TokenType) -> Kind {
    match t {
        TokenType::Number(n) => Kind::Number(value(n)),
        TokenType::Plus => Kind::Plus,
        TokenType::Minus => Kind::Minus,
        TokenType::Multiply => Kind::Multiply,
        TokenType::Divide => Kind::Divide,
        TokenType::OpenParen => Kind::OpenParen,
        TokenType::CloseParen => Kind::CloseParen,
        TokenType::EOF => Kind::EOF,
    }
}

#[test]
fn test_tokenize() {
    let input = Lexer {
        validate_input: vec!['1', '+', '2', '3'],
        position: 0,
    };
    let res = input.tokenize().unwrap();

    let types: Vec<Kind> = res.iter().map(|t| kind(&t.token_type)).collect();
    let lexeme: Vec<String> = res.iter().map(|t| t.lexeme.clone()).collect();
    let position: Vec<usize> = res.iter().map(|t| t.position).collect();

    assert_eq!(types, vec![Kind::Number(1.0), Kind::Plus, Kind::Number(23.0)]);
    assert_eq!(lexeme, vec!["1", "+", "23"]);
    assert_eq!(position, vec![0, 1, 2]);
}

#[test]
fn lexer_negative_number() {
    let input = Lexer {
        validate_input: vec!['-', '1'],
        position: 0,
    };
    let res = input.tokenize().unwrap();

    let types: Vec<Kind> = res.iter().map(|t| kind(&t.token_type)).collect();
    let lexeme: Vec<String> = res.iter().map(|t| t.lexeme.clone()).collect();
    let position: Vec<usize> = res.iter().map(|t| t.position).collect();

    assert_eq!(types, vec![Kind::Number(-1.0)]);
    assert_eq!(lexeme, vec!["-1"]);
    assert_eq!(position, vec![0]);
}

#[test]
fn float_number() {
    let input = Lexer {
        validate_input: vec!['1', '.', '5'],
        position: 0,
    };
    let res = input.tokenize().unwrap();

    let types: Vec<Kind> = res.iter().map(|t| kind(&t.token_type)).collect();
    let lexeme: Vec<String> = res.iter().map(|t| t.lexeme.clone()).collect();
    let position: Vec<usize> = res.iter().map(|t| t.position).collect();

    assert_eq!(types, vec![Kind::Number(1.5)]);
    assert_eq!(lexeme, vec!["1.5"]);
    assert_eq!(position, vec![0]);
}

#[test]
fn negative_float_number() {
    let input = Lexer {
        validate_input: vec!['-', '1', '.', '5'],
        position: 0,
    };
    let res = input.tokenize().unwrap();

    let types: Vec<Kind> = res.iter().map(|t| kind(&t.token_type)).collect();
    let lexeme: Vec<String> = res.iter().map(|t| t.lexeme.clone()).collect();
    let position: Vec<usize> = res.iter().map(|t| t.position).collect();

    assert_eq!(types, vec![Kind::Number(-1.5)]);
    assert_eq!(lexeme, vec!["-1.5"]);
    assert_eq!(position, vec![0]);
}

#[test]
fn negative_number_in_expression() {
    let input = Lexer {
        validate_input: vec!['5', '+', '-', '3'],
        position: 0,
    };
    let res = input.tokenize().unwrap();

    let types: Vec<Kind> = res.iter().map(|t| kind(&t.token_type)).collect();
    let lexeme: Vec<String> = res.iter().map(|t| t.lexeme.clone()).collect();
    let position: Vec<usize> = res.iter().map(|t| t.position).collect();

    assert_eq!(types, vec![Kind::Number(5.0), Kind::Plus, Kind::Number(-3.0)]);
    assert_eq!(lexeme, vec!["5", "+", "-3"]);
    assert_eq!(position, vec![0, 1, 2]);
}

#[test]
fn negative_number_in_expression_with_minus() {
    let input = Lexer {
        validate_input: vec!['5', '-', '-', '3'],
        position: 0,
    };
    let res = input.tokenize().unwrap();

    let types: Vec<Kind> = res.iter().map(|t| kind(&t.token_type)).collect();
    let lexeme: Vec<String> = res.iter().map(|t| t.lexeme.clone()).collect();
    let position: Vec<usize> = res.iter().map(|t| t.position).collect();

    assert_eq!(types, vec![Kind::Number(5.0), Kind::Minus, Kind::Number(-3.0)]);
    assert_eq!(lexeme, vec!["5", "-", "-3"]);
    assert_eq!(position, vec![0, 1, 2]);
}

#[test]
fn negative_number_after_open_paren() {
    let input = Lexer {
        validate_input: vec!['(', '-', '3', ')'],
        position: 0,
    };
    let res = input.tokenize().unwrap();

    let types: Vec<Kind> = res.iter().map(|t| kind(&t.token_type)).collect();
    assert_eq!(types, vec![Kind::OpenParen, Kind::Number(-3.0), Kind::CloseParen]);
}

// The lexemes of the tokens, one after the other, are the input, and each
// position is the index of the lexeme's first character.
#[test]
fn tokens_cover_the_input() {
    let chars: Vec<char> = "(12.5-3)*-4/x".chars().collect();
    let lexer = Lexer { validate_input: chars.clone(), position: 0 };
    let tokens = lexer.tokenize().unwrap();
    let joined: String = tokens.iter().map(|t| t.lexeme.clone()).collect();
    assert_eq!(joined, "(12.5-3)*-4/x");
    let mut offset = 0;
    for t in &tokens {
        assert_eq!(t.position, offset);
        offset += t.lexeme.chars().count();
    }
    assert_eq!(offset, chars.len());
    let types: Vec<Kind> = tokens.iter().map(|t| kind(&t.token_type)).collect();
    assert_eq!(
        types,
        vec![
            Kind::OpenParen,
            Kind::Number(12.5),
            Kind::Minus,
            Kind::Number(3.0),
            Kind::CloseParen,
            Kind::Multiply,
            Kind::Number(-4.0),
            Kind::Divide,
            Kind::EOF,
        ]
    );
}

#[test]
fn number_token_holds_its_numeral() {
    let lexer = Lexer { validate_input: vec!['-', '1', '0', '.', '2', '5'], position: 0 };
    let tokens = lexer.tokenize().unwrap();
    assert_eq!(
        tokens[0].token_type,
        TokenType::Number(Numeral { negative: true, whole: vec![1, 0], fraction: Some(vec![2, 5]) })
    );
}

#[test]
fn minus_after_close_paren_is_an_operator() {
    let lexer = Validation::pre_validate("(2)-5").unwrap();
    let types: Vec<Kind> = lexer.tokenize().unwrap().iter().map(|t| kind(&t.token_type)).collect();
    assert_eq!(
        types,
        vec![Kind::OpenParen, Kind::Number(2.0), Kind::CloseParen, Kind::Minus, Kind::Number(5.0)]
    );
}

#[test]
fn tokenize_reports_the_first_bad_number() {
    let lexer = Lexer { validate_input: vec!['(', '.', '5', ')', '+', '1', '.', '2', '.', '3'], position: 0 };
    assert_eq!(lexer.tokenize().err(), Some(Error::TrailingSeparator));
    let lexer = Lexer { validate_input: vec!['1', '.', '2', '.', '3'], position: 0 };
    assert_eq!(lexer.tokenize().err(), Some(Error::MultipleDots));
    let lexer = Lexer { validate_input: vec!['4', '+', '1', '.'], position: 0 };
    assert_eq!(lexer.tokenize().err(), Some(Error::TrailingSeparator));
}

#[test]
fn badly_formed_runs_are_refused() {
    // Two unary minus signs in a row make one run that is not a number.
    let lexer = Validation::pre_validate("5---3").unwrap();
    assert_eq!(lexer.tokenize().err(), Some(Error::TrailingSeparator));
    let lexer = Lexer { validate_input: vec!['-', '-', '3'], position: 0 };
    assert_eq!(lexer.tokenize().err(), Some(Error::TrailingSeparator));
    // An earlier error is returned first.
    let lexer = Lexer { validate_input: vec!['1', '.', '2', '.', '3', '+', '-', '-', '3'], position: 0 };
    assert_eq!(lexer.tokenize().err(), Some(Error::MultipleDots));
    let lexer = Lexer { validate_input: vec!['1', '+', '2'], position: 0 };
    assert_eq!(lexer.tokenize().unwrap().len(), 3);
}

#[test]
fn empty_input_gives_no_tokens() {
    let lexer = Lexer::default();
    assert_eq!(lexer.position, 0);
    assert_eq!(lexer.tokenize().unwrap().len(), 0);
}
