use calculator::errors::Error;
use calculator::parser::{Numeral, Parser};

#[test]
fn test_parse_number_usual() {
    assert!(Parser::parse_number(&['1', '0', '9']).is_ok());
}
#[test]
fn test_parse_number_usual_neg() {
    assert!(Parser::parse_number(&['-', '1', '0', '9']).is_ok());
}
#[test]
fn test_parse_number_usual_digit_neg() {
    assert!(Parser::parse_number(&['-', '1']).is_ok());
}
#[test]
fn test_parse_number_usual_digit_neg_zeroes() {
    assert!(Parser::parse_number(&['-', '0']).is_ok());
}

#[test]
fn test_parse_number_float() {
    assert!(Parser::parse_number(&['1', '.', '0', '9']).is_ok());
}
#[test]
fn test_parse_number_float_neg() {
    assert!(Parser::parse_number(&['-', '1', '.', '0', '9']).is_ok());
}
#[test]
fn test_parse_number_second_point() {
    assert!(Parser::parse_number(&['-', '.', '.', '0', '9']).is_err());
}
#[test]
fn test_parse_number_only_point_with_neg() {
    assert!(Parser::parse_number(&['-', '.']).is_err());
}

#[test]
fn test_parse_number_only_point() {
    assert!(Parser::parse_number(&['.']).is_err());
}
#[test]
fn test_parse_number_fitst_and_last_dots() {
    assert!(Parser::parse_number(&['.', '.']).is_err());
}
#[test]
fn test_parse_number_middle_dots() {
    assert!(Parser::parse_number(&['1', '.', '2', '.', '3']).is_err());
}

// The example of the documentation: `-10.5`.
#[test]
fn parse_number_documented_example() {
    let n = Parser::parse_number(&['-', '1', '0', '.', '5']).unwrap();
    assert_eq!(n, Numeral { negative: true, whole: vec![1, 0], fraction: Some(vec![5]) });
}

#[test]
fn parse_number_values() {
    assert_eq!(
        Parser::parse_number(&['1', '0', '9']).unwrap(),
        Numeral { negative: false, whole: vec![1, 0, 9], fraction: None }
    );
    assert_eq!(
        Parser::parse_number(&['0', '0', '.', '5', '7']).unwrap(),
        Numeral { negative: false, whole: vec![0, 0], fraction: Some(vec![5, 7]) }
    );
    assert_eq!(
        Parser::parse_number(&['-', '0']).unwrap(),
        Numeral { negative: true, whole: vec![0], fraction: None }
    );
}

#[test]
fn parse_number_errors() {
    assert_eq!(Parser::parse_number(&['-']).err(), Some(Error::TrailingSeparator));
    assert_eq!(Parser::parse_number(&['.', '5']).err(), Some(Error::TrailingSeparator));
    assert_eq!(Parser::parse_number(&['5', '.']).err(), Some(Error::TrailingSeparator));
    assert_eq!(Parser::parse_number(&['-', '.', '5']).err(), Some(Error::TrailingSeparator));
    assert_eq!(Parser::parse_number(&['1', '.', '2', '.', '3']).err(), Some(Error::MultipleDots));
    assert_eq!(Parser::parse_number(&['-', '1', '.', '.', '3']).err(), Some(Error::MultipleDots));
    // Empty input and any other structure are refused as well.
    assert_eq!(Parser::parse_number(&[]).err(), Some(Error::TrailingSeparator));
    assert_eq!(Parser::parse_number(&['-', '-', '3']).err(), Some(Error::TrailingSeparator));
    assert_eq!(Parser::parse_number(&['1', '-', '2']).err(), Some(Error::TrailingSeparator));
    assert_eq!(Parser::parse_number(&['1', 'x']).err(), Some(Error::TrailingSeparator));
    assert_eq!(Parser::parse_number(&['1', '.', '-']).err(), Some(Error::TrailingSeparator));
}

// Writing a parsed number down again gives back its characters.
#[test]
fn parse_then_render() {
    let cases: [&[char]; 4] = [&['-', '1', '0', '.', '2', '5'], &['7'], &['0', '.', '0', '1'], &['-', '3']];
    for cs in cases {
        let n = Parser::parse_number(cs).unwrap();
        let mut text = String::new();
        if n.negative {
            text.push('-');
        }
        for d in &n.whole {
            text.push((b'0' + d) as char);
        }
        if let Some(f) = &n.fraction {
            text.push('.');
            for d in f {
                text.push((b'0' + d) as char);
            }
        }
        assert_eq!(text, cs.iter().collect::<String>());
    }
}

#[test]
fn clone_keeps_the_numeral() {
    let n = Numeral { negative: true, whole: vec![4, 2], fraction: Some(vec![1]) };
    assert_eq!(n.clone(), n);
}
