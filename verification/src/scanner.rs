//! The row/column scanner design: a cursor with one character of lookahead
//! over an owned character buffer, tracking row and column provenance for
//! every token.  Unlike [`crate::tokenizer`], a full [`Scanner::scan`]
//! stops at the first illegal character and reports it as an error.

use crate::chars::copy_range;
use crate::chars::digit_run_end;
use crate::chars::is_alpha;
use crate::chars::is_digit;
use crate::chars::is_letter;
use crate::chars::is_line_break;
use crate::chars::is_string_delimiter;
use crate::chars::lemma_digit_run_end;
use crate::chars::lemma_letter_run_end;
use crate::chars::lemma_quote_scan_end;
use crate::chars::letter_run_end;
use crate::chars::quote_scan_end;
use crate::chars::singleton;
use crate::chars::spec_is_alpha;
use crate::chars::spec_is_digit;
use crate::chars::spec_is_line_break;
use crate::chars::spec_is_string_delimiter;
use crate::token::Token;
use crate::token::TokenDetails;
use crate::token::TokenDetailsModel;
use crate::token::TokenModel;
use vstd::prelude::*;

verus! {

/// The failure that stops a full scan: the first illegal token, with its
/// row, column and offending text.
#[derive(Debug)]
pub enum ScannerError {
    IllegalTokenError(TokenDetails),
}

/// The mathematical value of a [`ScannerError`].
pub enum ScannerErrorModel {
    IllegalTokenError(TokenDetailsModel),
}

impl View for ScannerError {
    type V = ScannerErrorModel;

    open spec fn view(&self) -> ScannerErrorModel {
        match self {
            ScannerError::IllegalTokenError(d) => ScannerErrorModel::IllegalTokenError(d@),
        }
    }
}

impl PartialEq for ScannerError {
    fn eq(&self, other: &ScannerError) -> (r: bool) {
        match (self, other) {
            (ScannerError::IllegalTokenError(a), ScannerError::IllegalTokenError(b)) => a.eq(b),
        }
    }
}

impl vstd::std_specs::cmp::PartialEqSpecImpl for ScannerError {
    open spec fn obeys_eq_spec() -> bool {
        true
    }

    open spec fn eq_spec(&self, other: &ScannerError) -> bool {
        self@ == other@
    }
}

/// The cursor state of a scanner: the character buffer, the current
/// position, and the row/column bookkeeping.  The lookahead index and the
/// current character are derived from these (see [`Scanner::wf`]).
pub struct ScannerModel {
    pub input: Seq<char>,
    pub position: int,
    pub row: int,
    pub col: int,
}

/// The token that one advance from state `m` produces, together with the
/// state after it.  Columns count characters since the start of the row,
/// advancing with every character read, so a token's reported column is the
/// scanner's column bookkeeping at its first character.
pub open spec fn scanner_step(m: ScannerModel) -> (TokenModel, ScannerModel) {
    let len = m.input.len() as int;
    if !(0 <= m.position < len) {
        (
            TokenModel::EOF,
            ScannerModel { input: m.input, position: m.position + 1, row: m.row, col: m.col + 1 },
        )
    } else {
        let c = m.input[m.position];
        let d1 = TokenDetailsModel { row: m.row, col: m.col - 1, literal: seq![c] };
        let after1 = ScannerModel {
            input: m.input,
            position: m.position + 1,
            row: m.row,
            col: m.col + 1,
        };
        if c == ':' {
            (TokenModel::Colon(d1), after1)
        } else if c == '!' {
            (TokenModel::Exclamation(d1), after1)
        } else if c == '+' {
            (TokenModel::Plus(d1), after1)
        } else if c == '-' {
            (TokenModel::Minus(d1), after1)
        } else if c == '*' {
            (TokenModel::Star(d1), after1)
        } else if c == '%' {
            (TokenModel::Percentage(d1), after1)
        } else if spec_is_line_break(c) {
            (
                TokenModel::EOL(d1),
                ScannerModel { input: m.input, position: m.position + 1, row: m.row + 1, col: 1 },
            )
        } else if spec_is_string_delimiter(c) {
            let e = quote_scan_end(m.input, m.position + 1);
            (
                TokenModel::String(
                    TokenDetailsModel {
                        row: m.row,
                        col: m.col + e - m.position,
                        literal: m.input.subrange(m.position + 1, e),
                    },
                ),
                ScannerModel {
                    input: m.input,
                    position: e + 1,
                    row: m.row,
                    col: m.col + e - m.position + 1,
                },
            )
        } else if spec_is_alpha(c) {
            let e = letter_run_end(m.input, m.position);
            (
                TokenModel::Identifier(
                    TokenDetailsModel {
                        row: m.row,
                        col: m.col - 1,
                        literal: m.input.subrange(m.position, e),
                    },
                ),
                ScannerModel {
                    input: m.input,
                    position: e,
                    row: m.row,
                    col: m.col + e - m.position,
                },
            )
        } else if spec_is_digit(c) {
            let e = digit_run_end(m.input, m.position);
            (
                TokenModel::Number(
                    TokenDetailsModel {
                        row: m.row,
                        col: m.col - 1,
                        literal: m.input.subrange(m.position, e),
                    },
                ),
                ScannerModel {
                    input: m.input,
                    position: e,
                    row: m.row,
                    col: m.col + e - m.position,
                },
            )
        } else {
            (TokenModel::Illegal(d1), after1)
        }
    }
}

/// One advance never moves the cursor backwards, and from a position inside
/// the buffer it moves past at most the rest of the buffer plus one.
pub proof fn lemma_scanner_step_bounds(m: ScannerModel)
    ensures
        0 <= m.position < m.input.len() ==> m.position < scanner_step(m).1.position
            <= m.input.len() + 1,
        !(0 <= m.position < m.input.len()) ==> scanner_step(m).0 == TokenModel::EOF,
{
    if 0 <= m.position < m.input.len() {
        let c = m.input[m.position];
        if spec_is_string_delimiter(c) {
            lemma_quote_scan_end(m.input, m.position + 1);
        } else if spec_is_alpha(c) {
            lemma_letter_run_end(m.input, m.position);
        } else if spec_is_digit(c) {
            lemma_digit_run_end(m.input, m.position);
        }
    }
}

/// The full scan from state `m`: every token up to and including `EOF`, or
/// the details of the first illegal token.
pub open spec fn spec_scan(m: ScannerModel) -> Result<Seq<TokenModel>, TokenDetailsModel>
    decreases m.input.len() + 2 - m.position,
{
    let step = scanner_step(m);
    match step.0 {
        TokenModel::EOF => Ok(seq![TokenModel::EOF]),
        TokenModel::Illegal(d) => Err(d),
        _ => {
            proof {
                lemma_scanner_step_bounds(m);
            }
            match spec_scan(step.1) {
                Ok(rest) => Ok(seq![step.0] + rest),
                Err(e) => Err(e),
            }
        },
    }
}

/// The models of a collected sequence of tokens.
pub open spec fn tokens_model(v: Seq<Token>) -> Seq<TokenModel> {
    v.map_values(|t: Token| t@)
}

/// The row/column scanner.  `position` indexes the current character,
/// `read_position` the lookahead, and `ch` holds the current character,
/// `None` once the cursor has passed the end of the buffer.
#[derive(Debug)]
pub struct Scanner {
    input: Vec<char>,
    pub position: usize,
    pub read_position: usize,
    pub ch: Option<char>,
    row: usize,
    col: usize,
}

impl View for Scanner {
    type V = ScannerModel;

    closed spec fn view(&self) -> ScannerModel {
        ScannerModel {
            input: self.input@,
            position: self.position as int,
            row: self.row as int,
            col: self.col as int,
        }
    }
}

impl Scanner {
    /// The lookahead index, as [`Scanner::read_char`]'s contract speaks
    /// of it.
    pub closed spec fn spec_read_position(&self) -> int {
        self.read_position as int
    }

    /// The current character, as [`Scanner::read_char`]'s contract speaks
    /// of it.
    pub closed spec fn spec_ch(&self) -> Option<char> {
        self.ch
    }

    /// The scanner's internal invariant: the lookahead index sits one past
    /// the current position, `ch` mirrors the buffer at the current
    /// position, the row/column bookkeeping stays within the cursor's
    /// reach, and the cursor itself never runs more than two past the end
    /// of the buffer.
    pub closed spec fn wf(&self) -> bool {
        &&& self.read_position as int == self@.position + 1
        &&& self.ch == (if self@.position < self@.input.len() {
            Some(self@.input[self@.position])
        } else {
            None::<char>
        })
        &&& 1 <= self@.col <= self@.position + 1
        &&& self@.row <= self@.position
        &&& self@.position <= self@.input.len() + 2
        &&& self@.input.len() + 4 <= usize::MAX
    }

    /// A fresh scanner over `input`, with the first character (if any)
    /// already loaded into the lookahead.
    pub fn new(input: Vec<char>) -> (s: Scanner)
        requires
            input@.len() + 4 <= usize::MAX,
        ensures
            s.wf(),
            s@.input == input@,
            s@.position == 0,
            s@.row == 0,
            s@.col == 1,
    {
        let mut s = Scanner { input, position: 0, read_position: 0, ch: None, row: 0, col: 0 };
        s.read_char();
        s
    }

    /// Loads the lookahead character and advances the cursor by one; the
    /// column count advances with it.
    pub fn read_char(&mut self)
        requires
            old(self).spec_read_position() < usize::MAX,
            old(self)@.col < usize::MAX,
        ensures
            final(self)@.input == old(self)@.input,
            final(self)@.position == old(self).spec_read_position(),
            final(self).spec_read_position() == old(self).spec_read_position() + 1,
            final(self).spec_ch() == (if old(self).spec_read_position() < old(
                self,
            )@.input.len() {
                Some(old(self)@.input[old(self).spec_read_position()])
            } else {
                None::<char>
            }),
            final(self)@.row == old(self)@.row,
            final(self)@.col == old(self)@.col + 1,
    {
        if self.read_position >= self.input.len() {
            self.ch = None;
        } else {
            self.ch = Some(self.input[self.read_position]);
        }
        self.position = self.read_position;
        self.read_position = self.read_position + 1;
        self.col = self.col + 1;
    }

    /// Reads the maximal run of letters/underscores at the cursor and hands
    /// it back, leaving the cursor on the first character past the run.
    fn read_identifier(&mut self) -> (r: Vec<char>)
        requires
            old(self).wf(),
            old(self)@.position <= old(self)@.input.len(),
        ensures
            final(self).wf(),
            final(self)@.input == old(self)@.input,
            final(self)@.position == letter_run_end(old(self)@.input, old(self)@.position),
            final(self)@.row == old(self)@.row,
            final(self)@.col == old(self)@.col + (final(self)@.position - old(self)@.position),
            r@ == old(self)@.input.subrange(
                old(self)@.position,
                letter_run_end(old(self)@.input, old(self)@.position),
            ),
    {
        let ghost m0 = self@;
        let start = self.position;
        while self.position < self.input.len() && self.ch.is_some() && is_letter(
            self.ch.unwrap(),
        )
            invariant
                old(self)@ == m0,
                self.wf(),
                self@.input == m0.input,
                start == m0.position,
                m0.position <= self@.position <= m0.input.len(),
                self@.row == m0.row,
                self@.col == m0.col + (self@.position - m0.position),
                letter_run_end(m0.input, m0.position) == letter_run_end(m0.input, self@.position),
            decreases m0.input.len() - self@.position,
        {
            self.read_char();
        }
        proof {
            lemma_letter_run_end(m0.input, m0.position);
        }
        copy_range(&self.input, start, self.position)
    }

    /// Reads the maximal run of digits at the cursor and hands it back,
    /// leaving the cursor on the first character past the run.
    fn read_number(&mut self) -> (r: Vec<char>)
        requires
            old(self).wf(),
            old(self)@.position <= old(self)@.input.len(),
        ensures
            final(self).wf(),
            final(self)@.input == old(self)@.input,
            final(self)@.position == digit_run_end(old(self)@.input, old(self)@.position),
            final(self)@.row == old(self)@.row,
            final(self)@.col == old(self)@.col + (final(self)@.position - old(self)@.position),
            r@ == old(self)@.input.subrange(
                old(self)@.position,
                digit_run_end(old(self)@.input, old(self)@.position),
            ),
    {
        let ghost m0 = self@;
        let start = self.position;
        while self.position < self.input.len() && self.ch.is_some() && is_digit(self.ch.unwrap())
            invariant
                old(self)@ == m0,
                self.wf(),
                self@.input == m0.input,
                start == m0.position,
                m0.position <= self@.position <= m0.input.len(),
                self@.row == m0.row,
                self@.col == m0.col + (self@.position - m0.position),
                digit_run_end(m0.input, m0.position) == digit_run_end(m0.input, self@.position),
            decreases m0.input.len() - self@.position,
        {
            self.read_char();
        }
        proof {
            lemma_digit_run_end(m0.input, m0.position);
        }
        copy_range(&self.input, start, self.position)
    }

    /// Reads up to the next string delimiter (exclusive) and hands the
    /// consumed characters back; at the end of the buffer it stops without
    /// a delimiter.
    fn read_string(&mut self) -> (r: Vec<char>)
        requires
            old(self).wf(),
            old(self)@.position <= old(self)@.input.len(),
        ensures
            final(self).wf(),
            final(self)@.input == old(self)@.input,
            final(self)@.position == quote_scan_end(old(self)@.input, old(self)@.position),
            final(self)@.row == old(self)@.row,
            final(self)@.col == old(self)@.col + (final(self)@.position - old(self)@.position),
            r@ == old(self)@.input.subrange(
                old(self)@.position,
                quote_scan_end(old(self)@.input, old(self)@.position),
            ),
    {
        let ghost m0 = self@;
        let start = self.position;
        while self.position < self.input.len() && self.ch.is_some() && !is_string_delimiter(
            self.ch.unwrap(),
        )
            invariant
                old(self)@ == m0,
                self.wf(),
                self@.input == m0.input,
                start == m0.position,
                m0.position <= self@.position <= m0.input.len(),
                self@.row == m0.row,
                self@.col == m0.col + (self@.position - m0.position),
                quote_scan_end(m0.input, m0.position) == quote_scan_end(m0.input, self@.position),
            decreases m0.input.len() - self@.position,
        {
            self.read_char();
        }
        proof {
            lemma_quote_scan_end(m0.input, m0.position);
        }
        copy_range(&self.input, start, self.position)
    }

    /// One advance of the scan: classifies the characters at the cursor
    /// into the next token, [`scanner_step`] saying exactly which token and
    /// which state follow.  Identifier and number scans return before the
    /// trailing lookahead advance that single-character tokens take, since
    /// their runs are already read in full.
    pub fn next_token(&mut self) -> (r: Token)
        requires
            old(self).wf(),
            old(self)@.position <= old(self)@.input.len() + 1,
        ensures
            final(self).wf(),
            r@ == scanner_step(old(self)@).0,
            final(self)@ == scanner_step(old(self)@).1,
    {
        let token: Token;
        if let Some(ch) = self.ch {
            if ch == ':' {
                token = Token::Colon(
                    TokenDetails { row: self.row, col: self.col - 1, literal: singleton(ch) },
                );
            } else if ch == '!' {
                token = Token::Exclamation(
                    TokenDetails { row: self.row, col: self.col - 1, literal: singleton(ch) },
                );
            } else if ch == '+' {
                token = Token::Plus(
                    TokenDetails { row: self.row, col: self.col - 1, literal: singleton(ch) },
                );
            } else if ch == '-' {
                token = Token::Minus(
                    TokenDetails { row: self.row, col: self.col - 1, literal: singleton(ch) },
                );
            } else if ch == '*' {
                token = Token::Star(
                    TokenDetails { row: self.row, col: self.col - 1, literal: singleton(ch) },
                );
            } else if ch == '%' {
                token = Token::Percentage(
                    TokenDetails { row: self.row, col: self.col - 1, literal: singleton(ch) },
                );
            } else if is_line_break(ch) {
                // one column back, the length of this literal, since the
                // column count has already advanced past it
                token = Token::EOL(
                    TokenDetails { row: self.row, col: self.col - 1, literal: singleton(ch) },
                );
                self.row = self.row + 1;
                self.col = 0;
            } else if is_string_delimiter(ch) {
                self.read_char();
                proof {
                    lemma_quote_scan_end(old(self)@.input, old(self)@.position + 1);
                }
                let literal = self.read_string();
                token = Token::String(
                    TokenDetails { row: self.row, col: self.col, literal },
                );
            } else if is_alpha(ch) {
                let ident = self.read_identifier();
                proof {
                    lemma_letter_run_end(old(self)@.input, old(self)@.position);
                    assert(ident@.len() == self@.position - old(self)@.position);
                    assert(self@.col - ident@.len() == old(self)@.col);
                }
                // the run is already read in full, so return without the
                // trailing lookahead advance below
                let col = self.col - ident.len() - 1;
                return Token::Identifier(TokenDetails { row: self.row, col, literal: ident });
            } else if is_digit(ch) {
                let num = self.read_number();
                proof {
                    lemma_digit_run_end(old(self)@.input, old(self)@.position);
                    assert(num@.len() == self@.position - old(self)@.position);
                    assert(self@.col - num@.len() == old(self)@.col);
                }
                // same here
                let col = self.col - num.len() - 1;
                return Token::Number(TokenDetails { row: self.row, col, literal: num });
            } else {
                token = Token::Illegal(
                    TokenDetails { row: self.row, col: self.col - 1, literal: singleton(ch) },
                );
            }
        } else {
            token = Token::EOF;
        }
        self.read_char();
        token
    }

    /// Drains the scan into a vector of tokens ending with `EOF`, or stops
    /// at the first illegal token and reports it as the error.
    pub fn scan(&mut self) -> (r: Result<Vec<Token>, ScannerError>)
        requires
            old(self).wf(),
            old(self)@.position <= old(self)@.input.len() + 1,
        ensures
            final(self).wf(),
            final(self)@.input == old(self)@.input,
            match spec_scan(old(self)@) {
                Ok(ts) => r matches Ok(v) && tokens_model(v@) == ts,
                Err(d) => r matches Err(e) && e@ == ScannerErrorModel::IllegalTokenError(d),
            },
    {
        let ghost m0 = self@;
        let mut tokens: Vec<Token> = Vec::new();
        loop
            invariant_except_break
                self@.position <= m0.input.len() + 1,
                match spec_scan(self@) {
                    Ok(rest) => spec_scan(m0) == Ok::<Seq<TokenModel>, TokenDetailsModel>(
                        tokens_model(tokens@) + rest,
                    ),
                    Err(d) => spec_scan(m0) == Err::<Seq<TokenModel>, TokenDetailsModel>(d),
                },
            invariant
                old(self)@ == m0,
                self.wf(),
                self@.input == m0.input,
            ensures
                self.wf(),
                self@.input == m0.input,
                spec_scan(m0) matches Ok(ts) && ts == tokens_model(tokens@),
            decreases m0.input.len() + 2 - self@.position,
        {
            let ghost m_before = self@;
            let token = self.next_token();
            proof {
                lemma_scanner_step_bounds(m_before);
            }
            match token {
                Token::EOF => {
                    let ghost prev = tokens@;
                    tokens.push(token);
                    proof {
                        assert(tokens_model(tokens@) =~= tokens_model(prev).push(
                            TokenModel::EOF,
                        ));
                        assert(tokens_model(prev).push(TokenModel::EOF) =~= tokens_model(prev)
                            + seq![TokenModel::EOF]);
                    }
                    break ;
                },
                Token::Illegal(d) => {
                    return Err(ScannerError::IllegalTokenError(d));
                },
                _ => {
                    let ghost prev = tokens@;
                    tokens.push(token);
                    proof {
                        assert(tokens_model(tokens@) =~= tokens_model(prev).push(
                            scanner_step(m_before).0,
                        ));
                        assert(forall|rest: Seq<TokenModel>|
                            tokens_model(prev).push(scanner_step(m_before).0) + rest
                                =~= tokens_model(prev) + (seq![scanner_step(m_before).0]
                                + rest));
                    }
                },
            }
        }
        Ok(tokens)
    }
}

} // verus!
