use atm::tokenizer::{Loc, Token, Tokenizer, TokenizerError};

fn chars_of(s: &str) -> Vec<char> {
    s.chars().collect()
}

fn loc(start: usize, end: usize, literal: &str) -> Loc {
    Loc {
        start,
        end,
        literal: literal.chars().collect(),
    }
}

#[test]
fn tokenizer_test_assignment() {
    let input = chars_of("1:x");
    let mut t = Tokenizer::new(input);
    let actual = t.collect_all();
    let expected = vec![
        Ok(Token::Number(loc(0, 0, "1"))),
        Ok(Token::Colon(loc(1, 1, ":"))),
        Ok(Token::Identifier(loc(2, 2, "x"))),
        Ok(Token::EOF),
    ];
    assert_eq!(actual, expected);
}

#[test]
fn test_multichar_identifiers() {
    let input = chars_of("1:diameter");
    let mut t = Tokenizer::new(input);
    let actual = t.collect_all();
    let expected = vec![
        Ok(Token::Number(loc(0, 0, "1"))),
        Ok(Token::Colon(loc(1, 1, ":"))),
        Ok(Token::Identifier(loc(2, 9, "diameter"))),
        Ok(Token::EOF),
    ];
    assert_eq!(actual, expected);
}

#[test]
fn test_longer_numbers() {
    let input = chars_of("43:age");
    let mut t = Tokenizer::new(input);
    let actual = t.collect_all();
    let expected = vec![
        Ok(Token::Number(loc(0, 1, "43"))),
        Ok(Token::Colon(loc(2, 2, ":"))),
        Ok(Token::Identifier(loc(3, 5, "age"))),
        Ok(Token::EOF),
    ];
    assert_eq!(actual, expected);
}

#[test]
fn test_strings() {
    let input = chars_of("\"hello world\":s");
    let mut t = Tokenizer::new(input);
    let expected = vec![
        Ok(Token::String(loc(0, 12, "hello world"))),
        Ok(Token::Colon(loc(13, 13, ":"))),
        Ok(Token::Identifier(loc(14, 14, "s"))),
        Ok(Token::EOF),
    ];
    let actual = t.collect_all();
    assert_eq!(actual, expected);
}

#[test]
fn tokenizer_test_arithmetic_tokens() {
    let input = chars_of("1+2*4-2%2");
    let mut t = Tokenizer::new(input);
    let expected = vec![
        Ok(Token::Number(loc(0, 0, "1"))),
        Ok(Token::Plus(loc(1, 1, "+"))),
        Ok(Token::Number(loc(2, 2, "2"))),
        Ok(Token::Star(loc(3, 3, "*"))),
        Ok(Token::Number(loc(4, 4, "4"))),
        Ok(Token::Minus(loc(5, 5, "-"))),
        Ok(Token::Number(loc(6, 6, "2"))),
        Ok(Token::Percentage(loc(7, 7, "%"))),
        Ok(Token::Number(loc(8, 8, "2"))),
        Ok(Token::EOF),
    ];
    let actual = t.collect_all();
    assert_eq!(actual, expected);
}

#[test]
fn test_errors_in_collection() {
    let input = chars_of("⍵-12:⍺\"1");
    let mut t = Tokenizer::new(input);
    let errors = t.errors();
    let expected = vec![
        Err(TokenizerError::UnknownToken(loc(0, 0, "⍵"))),
        Ok(Token::Minus(loc(1, 1, "-"))),
        Ok(Token::Number(loc(2, 3, "12"))),
        Ok(Token::Colon(loc(4, 4, ":"))),
        Err(TokenizerError::UnknownToken(loc(5, 5, "⍺"))),
        Err(TokenizerError::UnterminatedString(loc(6, 6, "\""))),
        Ok(Token::EOF),
    ];
    let actual = t.collect_all();
    assert_eq!(3, errors.len());
    assert_eq!(actual, expected);
}

#[test]
fn test_eof_is_last_and_unique() {
    for source in ["", "1:x", "⍵-12:⍺\"1", "\"open", "  \t "] {
        let mut t = Tokenizer::new(chars_of(source));
        let items = t.collect_all();
        assert!(!items.is_empty());
        assert_eq!(items.last().unwrap(), &Ok(Token::EOF));
        let eof_count = items
            .iter()
            .filter(|i| matches!(i, Ok(Token::EOF)))
            .count();
        assert_eq!(eof_count, 1);
        assert_eq!(t.next(), None);
    }
}

#[test]
fn test_restartable_scans_agree() {
    let source = "\"a b\" + 12:xy ⍺\n";
    let mut first = Tokenizer::new(chars_of(source));
    let mut second = Tokenizer::new(chars_of(source));
    let a = first.collect_all();
    let b = second.collect_all();
    assert_eq!(a, b);
}

#[test]
fn test_errors_does_not_perturb_scan() {
    let source = "⍵-12:⍺\"1";
    let mut t = Tokenizer::new(chars_of(source));
    let first = t.next();
    let errors = t.errors();
    assert_eq!(errors.len(), 2);
    assert_eq!(
        first,
        Some(Err(TokenizerError::UnknownToken(loc(0, 0, "⍵"))))
    );
    let second = t.next();
    assert_eq!(second, Some(Ok(Token::Minus(loc(1, 1, "-")))));
}

#[test]
fn test_literal_round_trip() {
    let source = "\"hello world\":s+42 abc";
    let input = chars_of(source);
    let mut t = Tokenizer::new(input.clone());
    for item in t.collect_all() {
        let (start, end, literal, quoted) = match item {
            Ok(Token::Number(l)) => (l.start, l.end, l.literal, false),
            Ok(Token::Identifier(l)) => (l.start, l.end, l.literal, false),
            Ok(Token::String(l)) => (l.start, l.end, l.literal, true),
            _ => continue,
        };
        let sliced: Vec<char> = if quoted {
            input[start + 1..end].to_vec()
        } else {
            input[start..=end].to_vec()
        };
        assert_eq!(literal, sliced);
    }
}

#[test]
fn test_maximal_munch_runs_unsplit() {
    let input = chars_of("12 34 ab cd");
    let mut t = Tokenizer::new(input);
    let actual = t.collect_all();
    let expected = vec![
        Ok(Token::Number(loc(0, 1, "12"))),
        Ok(Token::Number(loc(3, 4, "34"))),
        Ok(Token::Identifier(loc(6, 7, "ab"))),
        Ok(Token::Identifier(loc(9, 10, "cd"))),
        Ok(Token::EOF),
    ];
    assert_eq!(actual, expected);
}

#[test]
fn test_error_tolerance_counts() {
    // two unrecognized characters interleaved with valid tokens: exactly
    // two errors, and every valid token on either side is still produced
    let input = chars_of("⍺1+2⍵:x");
    let mut t = Tokenizer::new(input);
    let errors = t.errors();
    assert_eq!(errors.len(), 2);
    let actual = t.collect_all();
    let expected = vec![
        Err(TokenizerError::UnknownToken(loc(0, 0, "⍺"))),
        Ok(Token::Number(loc(1, 1, "1"))),
        Ok(Token::Plus(loc(2, 2, "+"))),
        Ok(Token::Number(loc(3, 3, "2"))),
        Err(TokenizerError::UnknownToken(loc(4, 4, "⍵"))),
        Ok(Token::Colon(loc(5, 5, ":"))),
        Ok(Token::Identifier(loc(6, 6, "x"))),
        Ok(Token::EOF),
    ];
    assert_eq!(actual, expected);
}

#[test]
fn test_blanks_are_skipped() {
    let input = chars_of("1 :\tx");
    let mut t = Tokenizer::new(input);
    let actual = t.collect_all();
    let expected = vec![
        Ok(Token::Number(loc(0, 0, "1"))),
        Ok(Token::Colon(loc(2, 2, ":"))),
        Ok(Token::Identifier(loc(4, 4, "x"))),
        Ok(Token::EOF),
    ];
    assert_eq!(actual, expected);
}

#[test]
fn test_line_break_token() {
    let input = chars_of("1\nx\r");
    let mut t = Tokenizer::new(input);
    let actual = t.collect_all();
    let expected = vec![
        Ok(Token::Number(loc(0, 0, "1"))),
        Ok(Token::EOL(loc(1, 1, "\n"))),
        Ok(Token::Identifier(loc(2, 2, "x"))),
        Ok(Token::EOL(loc(3, 3, "\r"))),
        Ok(Token::EOF),
    ];
    assert_eq!(actual, expected);
}

#[test]
fn test_unterminated_string() {
    let input = chars_of("\"abc");
    let mut t = Tokenizer::new(input);
    let errors = t.errors();
    let actual = t.collect_all();
    let expected = vec![
        Err(TokenizerError::UnterminatedString(loc(0, 0, "\""))),
        Ok(Token::EOF),
    ];
    assert_eq!(actual, expected);
    assert_eq!(
        errors,
        vec![TokenizerError::UnterminatedString(loc(0, 0, "\""))]
    );
}

#[test]
fn test_empty_string_literal() {
    let input = chars_of("\"\"");
    let mut t = Tokenizer::new(input);
    let actual = t.collect_all();
    let expected = vec![Ok(Token::String(loc(0, 1, ""))), Ok(Token::EOF)];
    assert_eq!(actual, expected);
}

#[test]
fn test_underscore_identifier() {
    let input = chars_of("_a_b:c_");
    let mut t = Tokenizer::new(input);
    let actual = t.collect_all();
    let expected = vec![
        Ok(Token::Identifier(loc(0, 3, "_a_b"))),
        Ok(Token::Colon(loc(4, 4, ":"))),
        Ok(Token::Identifier(loc(5, 6, "c_"))),
        Ok(Token::EOF),
    ];
    assert_eq!(actual, expected);
}

#[test]
fn test_empty_input_yields_only_eof() {
    let mut t = Tokenizer::new(Vec::new());
    let actual = t.collect_all();
    assert_eq!(actual, vec![Ok(Token::EOF)]);
    assert_eq!(t.next(), None);
}
