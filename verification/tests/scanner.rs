use atm::scanner::{Scanner, ScannerError};
use atm::token::{Token, TokenDetails};

fn chars_of(s: &str) -> Vec<char> {
    s.chars().collect()
}

#[test]
fn scanner_test_assignment() {
    let input = chars_of("1:x");
    let expected = vec![
        Token::Number(TokenDetails {
            row: 0,
            col: 0,
            literal: vec!['1'],
        }),
        Token::Colon(TokenDetails {
            row: 0,
            col: 1,
            literal: vec![':'],
        }),
        Token::Identifier(TokenDetails {
            row: 0,
            col: 2,
            literal: vec!['x'],
        }),
        Token::EOF,
    ];
    let mut l = Scanner::new(input);
    let actual = l.scan().unwrap();
    assert_eq!(actual, expected);
}

#[test]
fn test_enum() {
    let input = chars_of("12!");
    let expected = vec![
        Token::Number(TokenDetails {
            row: 0,
            col: 0,
            literal: vec!['1', '2'],
        }),
        Token::Exclamation(TokenDetails {
            row: 0,
            col: 2,
            literal: vec!['!'],
        }),
        Token::EOF,
    ];
    let mut l = Scanner::new(input);
    let actual = l.scan().unwrap();
    assert_eq!(actual, expected);
}

#[test]
fn test_location_of_token() {
    let input = chars_of("1!\n1:x\n");
    let expected = vec![
        Token::Number(TokenDetails {
            row: 0,
            col: 0,
            literal: vec!['1'],
        }),
        Token::Exclamation(TokenDetails {
            row: 0,
            col: 1,
            literal: vec!['!'],
        }),
        Token::EOL(TokenDetails {
            row: 0,
            col: 2,
            literal: vec!['\n'],
        }),
        Token::Number(TokenDetails {
            row: 1,
            col: 0,
            literal: vec!['1'],
        }),
        Token::Colon(TokenDetails {
            row: 1,
            col: 1,
            literal: vec![':'],
        }),
        Token::Identifier(TokenDetails {
            row: 1,
            col: 2,
            literal: vec!['x'],
        }),
        Token::EOL(TokenDetails {
            row: 1,
            col: 3,
            literal: vec!['\n'],
        }),
        Token::EOF,
    ];
    let mut l = Scanner::new(input);
    let actual = l.scan().unwrap();
    assert_eq!(actual, expected);
}

#[test]
fn scanner_test_arithmetic_tokens() {
    let input = chars_of("12+3*2-2%2:x\n");
    let expected = vec![
        Token::Number(TokenDetails {
            row: 0,
            col: 0,
            literal: vec!['1', '2'],
        }),
        Token::Plus(TokenDetails {
            row: 0,
            col: 2,
            literal: vec!['+'],
        }),
        Token::Number(TokenDetails {
            row: 0,
            col: 3,
            literal: vec!['3'],
        }),
        Token::Star(TokenDetails {
            row: 0,
            col: 4,
            literal: vec!['*'],
        }),
        Token::Number(TokenDetails {
            row: 0,
            col: 5,
            literal: vec!['2'],
        }),
        Token::Minus(TokenDetails {
            row: 0,
            col: 6,
            literal: vec!['-'],
        }),
        Token::Number(TokenDetails {
            row: 0,
            col: 7,
            literal: vec!['2'],
        }),
        Token::Percentage(TokenDetails {
            row: 0,
            col: 8,
            literal: vec!['%'],
        }),
        Token::Number(TokenDetails {
            row: 0,
            col: 9,
            literal: vec!['2'],
        }),
        Token::Colon(TokenDetails {
            row: 0,
            col: 10,
            literal: vec![':'],
        }),
        Token::Identifier(TokenDetails {
            row: 0,
            col: 11,
            literal: vec!['x'],
        }),
        Token::EOL(TokenDetails {
            row: 0,
            col: 12,
            literal: vec!['\n'],
        }),
        Token::EOF,
    ];
    let mut l = Scanner::new(input);
    let actual = l.scan().unwrap();
    assert_eq!(actual, expected);
}

#[test]
fn test_multichar_tokens() {
    let input = chars_of("c%d:pi");
    let mut l = Scanner::new(input);
    let expected = vec![
        Token::Identifier(TokenDetails {
            row: 0,
            col: 0,
            literal: vec!['c'],
        }),
        Token::Percentage(TokenDetails {
            row: 0,
            col: 1,
            literal: vec!['%'],
        }),
        Token::Identifier(TokenDetails {
            row: 0,
            col: 2,
            literal: vec!['d'],
        }),
        Token::Colon(TokenDetails {
            row: 0,
            col: 3,
            literal: vec![':'],
        }),
        Token::Identifier(TokenDetails {
            row: 0,
            col: 4,
            literal: vec!['p', 'i'],
        }),
        Token::EOF,
    ];
    let actual = l.scan().unwrap();
    assert_eq!(actual, expected);
}

#[test]
fn test_illegal_tokens() {
    let input = chars_of("2+⍺*3");
    let mut l = Scanner::new(input);
    let expected = Err(ScannerError::IllegalTokenError(TokenDetails {
        row: 0,
        col: 2,
        literal: vec!['⍺'],
    }));
    let actual = l.scan();
    assert_eq!(actual, expected);
}

#[test]
fn test_read_char_advances_cursor() {
    let input = chars_of("ab");
    let mut l = Scanner::new(input);
    assert_eq!(l.position, 0);
    assert_eq!(l.read_position, 1);
    assert_eq!(l.ch, Some('a'));
    l.read_char();
    assert_eq!(l.position, 1);
    assert_eq!(l.ch, Some('b'));
    l.read_char();
    assert_eq!(l.position, 2);
    assert_eq!(l.ch, None);
}

#[test]
fn test_token_length() {
    let eol = Token::EOL(TokenDetails {
        row: 0,
        col: 0,
        literal: vec!['\n'],
    });
    assert_eq!(eol.length(), Some(1));
    let number = Token::Number(TokenDetails {
        row: 0,
        col: 0,
        literal: vec!['4', '2'],
    });
    assert_eq!(number.length(), None);
    assert_eq!(Token::EOF.length(), None);
}

#[test]
fn test_scanner_string_token() {
    let input = chars_of("\"hi\":s");
    let mut l = Scanner::new(input);
    let first = l.next_token();
    assert_eq!(
        first,
        Token::String(TokenDetails {
            row: 0,
            col: 4,
            literal: vec!['h', 'i'],
        })
    );
    let second = l.next_token();
    assert_eq!(
        second,
        Token::Colon(TokenDetails {
            row: 0,
            col: 4,
            literal: vec![':'],
        })
    );
}

#[test]
fn test_scanner_empty_input() {
    let input: Vec<char> = Vec::new();
    let mut l = Scanner::new(input);
    let actual = l.scan().unwrap();
    assert_eq!(actual, vec![Token::EOF]);
}
