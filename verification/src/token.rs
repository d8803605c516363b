//! The token data model of the row/column scanner design: a closed, tagged
//! union of token kinds, each (except the terminal ones) carrying the row,
//! column and matched text of its occurrence.

use crate::chars::char_vec_eq;
use vstd::prelude::*;

verus! {

/// Row/column provenance and the matched text of one token.
#[derive(Debug)]
pub struct TokenDetails {
    pub row: usize,
    pub col: usize,
    pub literal: Vec<char>,
}

/// The mathematical value of a [`TokenDetails`]: the same three fields over
/// unbounded integers and a character sequence.
pub struct TokenDetailsModel {
    pub row: int,
    pub col: int,
    pub literal: Seq<char>,
}

impl View for TokenDetails {
    type V = TokenDetailsModel;

    open spec fn view(&self) -> TokenDetailsModel {
        TokenDetailsModel { row: self.row as int, col: self.col as int, literal: self.literal@ }
    }
}

impl PartialEq for TokenDetails {
    fn eq(&self, other: &TokenDetails) -> (r: bool) {
        self.row == other.row && self.col == other.col && char_vec_eq(&self.literal, &other.literal)
    }
}

impl vstd::std_specs::cmp::PartialEqSpecImpl for TokenDetails {
    open spec fn obeys_eq_spec() -> bool {
        true
    }

    open spec fn eq_spec(&self, other: &TokenDetails) -> bool {
        self@ == other@
    }
}

/// One classified lexical unit of the row/column scanner design.
#[derive(Debug)]
pub enum Token {
    EOL(TokenDetails),
    EOF,
    Ignored,
    Exclamation(TokenDetails),
    Colon(TokenDetails),
    Plus(TokenDetails),
    Minus(TokenDetails),
    Star(TokenDetails),
    Percentage(TokenDetails),
    Number(TokenDetails),
    Identifier(TokenDetails),
    String(TokenDetails),
    Illegal(TokenDetails),
}

/// The mathematical value of a [`Token`].
pub enum TokenModel {
    EOL(TokenDetailsModel),
    EOF,
    Ignored,
    Exclamation(TokenDetailsModel),
    Colon(TokenDetailsModel),
    Plus(TokenDetailsModel),
    Minus(TokenDetailsModel),
    Star(TokenDetailsModel),
    Percentage(TokenDetailsModel),
    Number(TokenDetailsModel),
    Identifier(TokenDetailsModel),
    String(TokenDetailsModel),
    Illegal(TokenDetailsModel),
}

impl View for Token {
    type V = TokenModel;

    open spec fn view(&self) -> TokenModel {
        match self {
            Token::EOL(d) => TokenModel::EOL(d@),
            Token::EOF => TokenModel::EOF,
            Token::Ignored => TokenModel::Ignored,
            Token::Exclamation(d) => TokenModel::Exclamation(d@),
            Token::Colon(d) => TokenModel::Colon(d@),
            Token::Plus(d) => TokenModel::Plus(d@),
            Token::Minus(d) => TokenModel::Minus(d@),
            Token::Star(d) => TokenModel::Star(d@),
            Token::Percentage(d) => TokenModel::Percentage(d@),
            Token::Number(d) => TokenModel::Number(d@),
            Token::Identifier(d) => TokenModel::Identifier(d@),
            Token::String(d) => TokenModel::String(d@),
            Token::Illegal(d) => TokenModel::Illegal(d@),
        }
    }
}

impl PartialEq for Token {
    fn eq(&self, other: &Token) -> (r: bool) {
        match (self, other) {
            (Token::EOL(a), Token::EOL(b)) => a.eq(b),
            (Token::EOF, Token::EOF) => true,
            (Token::Ignored, Token::Ignored) => true,
            (Token::Exclamation(a), Token::Exclamation(b)) => a.eq(b),
            (Token::Colon(a), Token::Colon(b)) => a.eq(b),
            (Token::Plus(a), Token::Plus(b)) => a.eq(b),
            (Token::Minus(a), Token::Minus(b)) => a.eq(b),
            (Token::Star(a), Token::Star(b)) => a.eq(b),
            (Token::Percentage(a), Token::Percentage(b)) => a.eq(b),
            (Token::Number(a), Token::Number(b)) => a.eq(b),
            (Token::Identifier(a), Token::Identifier(b)) => a.eq(b),
            (Token::String(a), Token::String(b)) => a.eq(b),
            (Token::Illegal(a), Token::Illegal(b)) => a.eq(b),
            _ => false,
        }
    }
}

impl vstd::std_specs::cmp::PartialEqSpecImpl for Token {
    open spec fn obeys_eq_spec() -> bool {
        true
    }

    open spec fn eq_spec(&self, other: &Token) -> bool {
        self@ == other@
    }
}

impl Token {
    /// The length of the matched text, reported for line terminators only.
    pub fn length(&self) -> (r: Option<usize>)
        ensures
            match self {
                Token::EOL(d) => r == Some(d.literal.len()),
                _ => r is None,
            },
    {
        match self {
            Token::EOL(details) => Some(details.literal.len()),
            _ => None,
        }
    }
}

} // verus!
