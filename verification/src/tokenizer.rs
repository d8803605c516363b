//! The offset-tracking, error-tolerant scanner design: a lazy token producer
//! over an immutable character buffer.  Each call to [`Tokenizer::next`]
//! yields one classified token or one recoverable error and advances the
//! cursor; the cursor never rewinds, so a full drain is finite and ends with
//! exactly one `EOF`.

use crate::chars::char_vec_eq;
use crate::chars::copy_range;
use crate::chars::digit_run_end;
use crate::chars::is_blank;
use crate::chars::is_digit;
use crate::chars::is_letter;
use crate::chars::is_line_break;
use crate::chars::is_string_delimiter;
use crate::chars::lemma_digit_run_end;
use crate::chars::lemma_letter_run_end;
use crate::chars::lemma_quote_scan_end;
use crate::chars::letter_run_end;
use crate::chars::quote_scan_end;
use crate::chars::singleton;
use crate::chars::spec_is_blank;
use crate::chars::spec_is_digit;
use crate::chars::spec_is_letter;
use crate::chars::spec_is_line_break;
use crate::chars::spec_is_string_delimiter;
use vstd::prelude::*;

verus! {

/// Start offset, end offset (inclusive) and matched text of one token.
/// Offsets are 0-based character indices into the scanned input.
#[derive(Debug)]
pub struct Loc {
    pub start: usize,
    pub end: usize,
    pub literal: Vec<char>,
}

/// The mathematical value of a [`Loc`].
pub struct LocModel {
    pub start: int,
    pub end: int,
    pub literal: Seq<char>,
}

impl View for Loc {
    type V = LocModel;

    open spec fn view(&self) -> LocModel {
        LocModel { start: self.start as int, end: self.end as int, literal: self.literal@ }
    }
}

impl PartialEq for Loc {
    fn eq(&self, other: &Loc) -> (r: bool) {
        self.start == other.start && self.end == other.end && char_vec_eq(
            &self.literal,
            &other.literal,
        )
    }
}

impl vstd::std_specs::cmp::PartialEqSpecImpl for Loc {
    open spec fn obeys_eq_spec() -> bool {
        true
    }

    open spec fn eq_spec(&self, other: &Loc) -> bool {
        self@ == other@
    }
}

/// One classified lexical unit.  Every variant except the terminal `EOF`
/// carries the location and matched text of its occurrence; a `String`
/// token's literal is the interior text, quotes excluded, while its
/// location spans from the opening to the closing quote inclusive.
#[derive(Debug)]
pub enum Token {
    Identifier(Loc),
    Colon(Loc),
    Number(Loc),
    String(Loc),
    Plus(Loc),
    Minus(Loc),
    Star(Loc),
    Percentage(Loc),
    EOL(Loc),
    EOF,
}

/// The mathematical value of a [`Token`].
pub enum TokenModel {
    Identifier(LocModel),
    Colon(LocModel),
    Number(LocModel),
    String(LocModel),
    Plus(LocModel),
    Minus(LocModel),
    Star(LocModel),
    Percentage(LocModel),
    EOL(LocModel),
    EOF,
}

impl View for Token {
    type V = TokenModel;

    open spec fn view(&self) -> TokenModel {
        match self {
            Token::Identifier(l) => TokenModel::Identifier(l@),
            Token::Colon(l) => TokenModel::Colon(l@),
            Token::Number(l) => TokenModel::Number(l@),
            Token::String(l) => TokenModel::String(l@),
            Token::Plus(l) => TokenModel::Plus(l@),
            Token::Minus(l) => TokenModel::Minus(l@),
            Token::Star(l) => TokenModel::Star(l@),
            Token::Percentage(l) => TokenModel::Percentage(l@),
            Token::EOL(l) => TokenModel::EOL(l@),
            Token::EOF => TokenModel::EOF,
        }
    }
}

impl PartialEq for Token {
    fn eq(&self, other: &Token) -> (r: bool) {
        match (self, other) {
            (Token::Identifier(a), Token::Identifier(b)) => a.eq(b),
            (Token::Colon(a), Token::Colon(b)) => a.eq(b),
            (Token::Number(a), Token::Number(b)) => a.eq(b),
            (Token::String(a), Token::String(b)) => a.eq(b),
            (Token::Plus(a), Token::Plus(b)) => a.eq(b),
            (Token::Minus(a), Token::Minus(b)) => a.eq(b),
            (Token::Star(a), Token::Star(b)) => a.eq(b),
            (Token::Percentage(a), Token::Percentage(b)) => a.eq(b),
            (Token::EOL(a), Token::EOL(b)) => a.eq(b),
            (Token::EOF, Token::EOF) => true,
            _ => false,
        }
    }
}

impl vstd::std_specs::cmp::PartialEqSpecImpl for Token {
    open spec fn obeys_eq_spec() -> bool {
        true
    }

    open spec fn eq_spec(&self, other: &Token) -> bool {
        self@ == other@
    }
}

/// The two recoverable failure kinds of a scan.  Both carry the location at
/// which the failure was detected: the offending character for
/// `UnknownToken`, the opening quote for `UnterminatedString`.
#[derive(Debug)]
pub enum TokenizerError {
    UnknownToken(Loc),
    UnterminatedString(Loc),
}

/// The mathematical value of a [`TokenizerError`].
pub enum ErrorModel {
    UnknownToken(LocModel),
    UnterminatedString(LocModel),
}

impl View for TokenizerError {
    type V = ErrorModel;

    open spec fn view(&self) -> ErrorModel {
        match self {
            TokenizerError::UnknownToken(l) => ErrorModel::UnknownToken(l@),
            TokenizerError::UnterminatedString(l) => ErrorModel::UnterminatedString(l@),
        }
    }
}

impl PartialEq for TokenizerError {
    fn eq(&self, other: &TokenizerError) -> (r: bool) {
        match (self, other) {
            (TokenizerError::UnknownToken(a), TokenizerError::UnknownToken(b)) => a.eq(b),
            (
                TokenizerError::UnterminatedString(a),
                TokenizerError::UnterminatedString(b),
            ) => a.eq(b),
            _ => false,
        }
    }
}

impl vstd::std_specs::cmp::PartialEqSpecImpl for TokenizerError {
    open spec fn obeys_eq_spec() -> bool {
        true
    }

    open spec fn eq_spec(&self, other: &TokenizerError) -> bool {
        self@ == other@
    }
}

/// A single-character token of the expression language.
pub open spec fn spec_is_operator(c: char) -> bool {
    c == ':' || c == '+' || c == '-' || c == '*' || c == '%'
}

/// The token that a lone operator or line terminator at `i` classifies to.
pub open spec fn single_char_token(input: Seq<char>, i: int) -> TokenModel
    recommends
        0 <= i < input.len(),
{
    let l = LocModel { start: i, end: i, literal: seq![input[i]] };
    if input[i] == ':' {
        TokenModel::Colon(l)
    } else if input[i] == '+' {
        TokenModel::Plus(l)
    } else if input[i] == '-' {
        TokenModel::Minus(l)
    } else if input[i] == '*' {
        TokenModel::Star(l)
    } else if input[i] == '%' {
        TokenModel::Percentage(l)
    } else {
        TokenModel::EOL(l)
    }
}

/// The outcome of one advance of the cursor: one more scan result together
/// with the cursor position after it, or exhaustion of the sequence.
pub enum Step {
    Item { item: Result<TokenModel, ErrorModel>, next: int },
    Done,
}

/// What one advance from cursor position `i` produces.  This is the
/// classification rule of the language, checked in priority order:
/// operators, line terminators, string literals, identifiers, numbers,
/// skipped blanks, unknown characters, and finally `EOF` exactly at the
/// position one past the last character.
pub open spec fn spec_step(input: Seq<char>, i: int) -> Step
    decreases input.len() + 1 - i,
{
    if i == input.len() {
        Step::Item { item: Ok(TokenModel::EOF), next: i + 1 }
    } else if !(0 <= i < input.len()) {
        Step::Done
    } else {
        let c = input[i];
        if spec_is_operator(c) || spec_is_line_break(c) {
            Step::Item { item: Ok(single_char_token(input, i)), next: i + 1 }
        } else if spec_is_string_delimiter(c) {
            let e = quote_scan_end(input, i + 1);
            if e < input.len() {
                Step::Item {
                    item: Ok(
                        TokenModel::String(
                            LocModel { start: i, end: e, literal: input.subrange(i + 1, e) },
                        ),
                    ),
                    next: e + 1,
                }
            } else {
                Step::Item {
                    item: Err(
                        ErrorModel::UnterminatedString(
                            LocModel { start: i, end: i, literal: seq![c] },
                        ),
                    ),
                    next: input.len() as int,
                }
            }
        } else if spec_is_letter(c) {
            let e = letter_run_end(input, i);
            Step::Item {
                item: Ok(
                    TokenModel::Identifier(
                        LocModel { start: i, end: e - 1, literal: input.subrange(i, e) },
                    ),
                ),
                next: e,
            }
        } else if spec_is_digit(c) {
            let e = digit_run_end(input, i);
            Step::Item {
                item: Ok(
                    TokenModel::Number(
                        LocModel { start: i, end: e - 1, literal: input.subrange(i, e) },
                    ),
                ),
                next: e,
            }
        } else if spec_is_blank(c) {
            spec_step(input, i + 1)
        } else {
            Step::Item {
                item: Err(ErrorModel::UnknownToken(LocModel { start: i, end: i, literal: seq![c] })),
                next: i + 1,
            }
        }
    }
}

/// From a valid cursor position an advance always yields an item, its
/// cursor strictly advances and stays in range, and it yields `EOF` exactly
/// when the cursor comes to rest one past the last character.
pub proof fn lemma_step_in_range(input: Seq<char>, i: int)
    requires
        0 <= i <= input.len(),
    ensures
        spec_step(input, i) matches Step::Item { item, next } && {
            &&& i < next <= input.len() + 1
            &&& (item == Ok::<TokenModel, ErrorModel>(TokenModel::EOF) <==> next == input.len()
                + 1)
        },
    decreases input.len() - i,
{
    if i == input.len() {
    } else {
        let c = input[i];
        if spec_is_operator(c) || spec_is_line_break(c) {
        } else if spec_is_string_delimiter(c) {
            lemma_quote_scan_end(input, i + 1);
        } else if spec_is_letter(c) {
            lemma_letter_run_end(input, i);
        } else if spec_is_digit(c) {
            lemma_digit_run_end(input, i);
        } else if spec_is_blank(c) {
            lemma_step_in_range(input, i + 1);
        } else {
        }
    }
}

/// The whole remaining scan from cursor position `i`: the sequence of all
/// results that repeated advances yield until exhaustion.
pub open spec fn spec_items(input: Seq<char>, i: int) -> Seq<Result<TokenModel, ErrorModel>>
    decreases input.len() + 2 - i,
{
    if 0 <= i <= input.len() {
        match spec_step(input, i) {
            Step::Item { item, next } => {
                proof {
                    lemma_step_in_range(input, i);
                }
                seq![item] + spec_items(input, next)
            },
            Step::Done => seq![],
        }
    } else {
        seq![]
    }
}

/// The model of one executable scan result.
pub open spec fn item_model(r: Result<Token, TokenizerError>) -> Result<TokenModel, ErrorModel> {
    match r {
        Ok(t) => Ok(t@),
        Err(e) => Err(e@),
    }
}

/// The model of a collected sequence of scan results.
pub open spec fn items_model(v: Seq<Result<Token, TokenizerError>>) -> Seq<
    Result<TokenModel, ErrorModel>,
> {
    v.map_values(|r: Result<Token, TokenizerError>| item_model(r))
}

/// The subsequence of errors in a sequence of scan results, in order.
pub open spec fn errs_of(items: Seq<Result<TokenModel, ErrorModel>>) -> Seq<ErrorModel>
    decreases items.len(),
{
    if items.len() == 0 {
        seq![]
    } else {
        let rest = errs_of(items.drop_first());
        match items.first() {
            Err(e) => seq![e] + rest,
            Ok(_) => rest,
        }
    }
}

/// The models of a collected sequence of errors.
pub open spec fn errors_model(v: Seq<TokenizerError>) -> Seq<ErrorModel> {
    v.map_values(|e: TokenizerError| e@)
}

/// Unfolding [`errs_of`] one result at a time.
pub proof fn lemma_errs_of_cons(x: Result<TokenModel, ErrorModel>, s: Seq<Result<TokenModel, ErrorModel>>)
    ensures
        errs_of(seq![x] + s) == match x {
            Err(e) => seq![e] + errs_of(s),
            Ok(_) => errs_of(s),
        },
{
    assert((seq![x] + s).len() == 1 + s.len());
    assert((seq![x] + s).first() == x);
    assert((seq![x] + s).drop_first() =~= s);
}

/// The cursor state of one scan: an immutable view of the character buffer
/// and the index of the next character to classify.
pub struct TokenizerModel {
    pub input: Seq<char>,
    pub index: int,
}

/// A lazy token producer.  It owns an immutable character buffer and a
/// cursor; each [`Tokenizer::next`] call classifies the characters at the
/// cursor into one scan result and advances the cursor, which never
/// rewinds.
pub struct Tokenizer {
    input: Vec<char>,
    index: usize,
}

impl View for Tokenizer {
    type V = TokenizerModel;

    closed spec fn view(&self) -> TokenizerModel {
        TokenizerModel { input: self.input@, index: self.index as int }
    }
}

impl Tokenizer {
    /// The cursor never leaves `0 ..= input.len() + 1`, and the buffer
    /// leaves room for the cursor to advance one past its end.
    pub open spec fn wf(&self) -> bool {
        &&& self@.index <= self@.input.len() + 1
        &&& self@.input.len() < usize::MAX
    }

    /// A fresh scan of `input`, with the cursor at the first character.
    pub fn new(input: Vec<char>) -> (r: Tokenizer)
        requires
            input@.len() < usize::MAX,
        ensures
            r.wf(),
            r@.input == input@,
            r@.index == 0,
    {
        Tokenizer { input, index: 0 }
    }

    /// Advances the cursor past the maximal run of digits that starts at it.
    fn read_number(&mut self)
        requires
            old(self).wf(),
            old(self)@.index <= old(self)@.input.len(),
        ensures
            final(self).wf(),
            final(self)@.input == old(self)@.input,
            final(self)@.index == digit_run_end(old(self)@.input, old(self)@.index),
    {
        let ghost input0 = self@.input;
        let ghost i0 = self@.index;
        while self.index < self.input.len()
            invariant
                input0 == old(self)@.input,
                i0 == old(self)@.index,
                self@.input == input0,
                i0 <= self@.index <= input0.len(),
                input0.len() < usize::MAX,
                digit_run_end(input0, i0) == digit_run_end(input0, self@.index),
            decreases input0.len() - self@.index,
        {
            if is_digit(self.input[self.index]) {
                self.index = self.index + 1;
            } else {
                return ;
            }
        }
    }

    /// Advances the cursor past the maximal run of letters/underscores that
    /// starts at it.
    fn read_identifier(&mut self)
        requires
            old(self).wf(),
            old(self)@.index <= old(self)@.input.len(),
        ensures
            final(self).wf(),
            final(self)@.input == old(self)@.input,
            final(self)@.index == letter_run_end(old(self)@.input, old(self)@.index),
    {
        let ghost input0 = self@.input;
        let ghost i0 = self@.index;
        while self.index < self.input.len()
            invariant
                input0 == old(self)@.input,
                i0 == old(self)@.index,
                self@.input == input0,
                i0 <= self@.index <= input0.len(),
                input0.len() < usize::MAX,
                letter_run_end(input0, i0) == letter_run_end(input0, self@.index),
            decreases input0.len() - self@.index,
        {
            if is_letter(self.input[self.index]) {
                self.index = self.index + 1;
            } else {
                return ;
            }
        }
    }

    /// Scans a string literal whose opening quote stands at the cursor.  On
    /// success the cursor comes to rest one past the closing quote; when no
    /// closing quote remains the cursor is left at the end of the input and
    /// the error reports the opening quote's location.
    fn read_string(&mut self) -> (r: Result<(), TokenizerError>)
        requires
            old(self).wf(),
            old(self)@.index < old(self)@.input.len(),
            spec_is_string_delimiter(old(self)@.input[old(self)@.index]),
        ensures
            final(self).wf(),
            final(self)@.input == old(self)@.input,
            ({
                let e = quote_scan_end(old(self)@.input, old(self)@.index + 1);
                if e < old(self)@.input.len() {
                    &&& r is Ok
                    &&& final(self)@.index == e + 1
                } else {
                    &&& r matches Err(err) && err@ == ErrorModel::UnterminatedString(
                        LocModel {
                            start: old(self)@.index,
                            end: old(self)@.index,
                            literal: seq![old(self)@.input[old(self)@.index]],
                        },
                    )
                    &&& final(self)@.index == old(self)@.input.len()
                }
            }),
    {
        let ghost input0 = self@.input;
        let ghost q0 = self@.index;
        let opening = self.index;
        self.index = self.index + 1;
        while self.index < self.input.len()
            invariant
                input0 == old(self)@.input,
                q0 == old(self)@.index,
                self@.input == input0,
                q0 + 1 <= self@.index <= input0.len(),
                q0 < input0.len(),
                input0.len() < usize::MAX,
                opening == q0,
                spec_is_string_delimiter(input0[q0]),
                quote_scan_end(input0, q0 + 1) == quote_scan_end(input0, self@.index),
            decreases input0.len() - self@.index,
        {
            if is_string_delimiter(self.input[self.index]) {
                self.index = self.index + 1;
                return Ok(());
            } else {
                self.index = self.index + 1;
            }
        }
        let literal = singleton(self.input[opening]);
        Err(TokenizerError::UnterminatedString(Loc { start: opening, end: opening, literal }))
    }

    /// One advance of the scan: yields the next classified token or
    /// recoverable error, or nothing once the sequence is exhausted.
    pub fn next(&mut self) -> (r: Option<Result<Token, TokenizerError>>)
        requires
            old(self).wf(),
        ensures
            final(self).wf(),
            final(self)@.input == old(self)@.input,
            match spec_step(old(self)@.input, old(self)@.index) {
                Step::Done => r is None && final(self)@.index == old(self)@.index,
                Step::Item { item, next } => {
                    &&& r matches Some(x) && item_model(x) == item
                    &&& final(self)@.index == next
                },
            },
    {
        let ghost input0 = self@.input;
        let ghost i0 = self@.index;
        if self.index > self.input.len() {
            return None;
        }
        while self.index < self.input.len() && is_blank(self.input[self.index])
            invariant
                self@.input == input0,
                i0 <= self@.index <= input0.len(),
                input0.len() < usize::MAX,
                spec_step(input0, i0) == spec_step(input0, self@.index),
            decreases input0.len() - self@.index,
        {
            self.index = self.index + 1;
        }
        if self.index == self.input.len() {
            self.index = self.index + 1;
            return Some(Ok(Token::EOF));
        }
        let ch = self.input[self.index];
        if ch == ':' {
            let literal = singleton(ch);
            let loc = Loc { start: self.index, end: self.index, literal };
            self.index = self.index + 1;
            Some(Ok(Token::Colon(loc)))
        } else if ch == '+' {
            let literal = singleton(ch);
            let loc = Loc { start: self.index, end: self.index, literal };
            self.index = self.index + 1;
            Some(Ok(Token::Plus(loc)))
        } else if ch == '-' {
            let literal = singleton(ch);
            let loc = Loc { start: self.index, end: self.index, literal };
            self.index = self.index + 1;
            Some(Ok(Token::Minus(loc)))
        } else if ch == '*' {
            let literal = singleton(ch);
            let loc = Loc { start: self.index, end: self.index, literal };
            self.index = self.index + 1;
            Some(Ok(Token::Star(loc)))
        } else if ch == '%' {
            let literal = singleton(ch);
            let loc = Loc { start: self.index, end: self.index, literal };
            self.index = self.index + 1;
            Some(Ok(Token::Percentage(loc)))
        } else if is_line_break(ch) {
            let literal = singleton(ch);
            let loc = Loc { start: self.index, end: self.index, literal };
            self.index = self.index + 1;
            Some(Ok(Token::EOL(loc)))
        } else if is_string_delimiter(ch) {
            let start = self.index;
            match self.read_string() {
                Err(e) => Some(Err(e)),
                Ok(_) => {
                    proof {
                        lemma_quote_scan_end(input0, start + 1);
                    }
                    let literal = copy_range(&self.input, start + 1, self.index - 1);
                    Some(Ok(Token::String(Loc { start, end: self.index - 1, literal })))
                },
            }
        } else if is_letter(ch) {
            let start = self.index;
            self.read_identifier();
            proof {
                lemma_letter_run_end(input0, start as int);
            }
            let literal = copy_range(&self.input, start, self.index);
            Some(Ok(Token::Identifier(Loc { start, end: self.index - 1, literal })))
        } else if is_digit(ch) {
            let start = self.index;
            self.read_number();
            proof {
                lemma_digit_run_end(input0, start as int);
            }
            let literal = copy_range(&self.input, start, self.index);
            Some(Ok(Token::Number(Loc { start, end: self.index - 1, literal })))
        } else {
            let literal = singleton(ch);
            let loc = Loc { start: self.index, end: self.index, literal };
            self.index = self.index + 1;
            Some(Err(TokenizerError::UnknownToken(loc)))
        }
    }

    /// Drains the rest of the scan into a vector: every remaining token and
    /// error in order, ending with `EOF`.
    pub fn collect_all(&mut self) -> (r: Vec<Result<Token, TokenizerError>>)
        requires
            old(self).wf(),
        ensures
            final(self).wf(),
            final(self)@.input == old(self)@.input,
            items_model(r@) == spec_items(old(self)@.input, old(self)@.index),
    {
        let ghost input0 = self@.input;
        let ghost i0 = self@.index;
        let mut items: Vec<Result<Token, TokenizerError>> = Vec::new();
        loop
            invariant
                self.wf(),
                self@.input == input0,
                0 <= i0 <= input0.len() + 1,
                spec_items(input0, i0) == items_model(items@) + spec_items(input0, self@.index),
            ensures
                self@.input == input0,
                self.wf(),
                items_model(items@) == spec_items(input0, i0),
            decreases input0.len() + 2 - self@.index,
        {
            let ghost i_before = self@.index;
            match self.next() {
                Some(item) => {
                    proof {
                        if i_before <= input0.len() {
                            lemma_step_in_range(input0, i_before);
                        }
                        assert(spec_step(input0, i_before) is Item);
                    }
                    let ghost prev = items@;
                    items.push(item);
                    proof {
                        assert(items_model(items@) =~= items_model(prev).push(item_model(item)));
                        assert(items_model(prev).push(item_model(item)) + spec_items(
                            input0,
                            self@.index,
                        ) =~= items_model(prev) + (seq![item_model(item)] + spec_items(
                            input0,
                            self@.index,
                        )));
                    }
                },
                None => {
                    proof {
                        assert(spec_items(input0, self@.index) =~= Seq::<
                            Result<TokenModel, ErrorModel>,
                        >::empty());
                        assert(items_model(items@) + spec_items(input0, self@.index)
                            =~= items_model(items@));
                    }
                    break ;
                },
            }
        }
        items
    }

    /// Collects only the errors of the scan, preserving their order of
    /// occurrence.  The pass runs over a fresh, independent cursor on a copy
    /// of the same input, so no in-flight scan over this buffer is
    /// perturbed.
    pub fn errors(&self) -> (r: Vec<TokenizerError>)
        requires
            self.wf(),
        ensures
            errors_model(r@) == errs_of(spec_items(self@.input, self@.index)),
    {
        let input = self.input.clone();
        proof {
            assert(input@ =~= self.input@);
        }
        let mut t = Tokenizer { input, index: self.index };
        let ghost input0 = self@.input;
        let ghost i0 = self@.index;
        let mut out: Vec<TokenizerError> = Vec::new();
        loop
            invariant
                t.wf(),
                t@.input == input0,
                0 <= i0 <= input0.len() + 1,
                errs_of(spec_items(input0, i0)) == errors_model(out@) + errs_of(
                    spec_items(input0, t@.index),
                ),
            ensures
                errors_model(out@) == errs_of(spec_items(input0, i0)),
            decreases input0.len() + 2 - t@.index,
        {
            let ghost i_before = t@.index;
            let ghost out_prev = out@;
            match t.next() {
                None => {
                    proof {
                        assert(spec_items(input0, t@.index) =~= Seq::<
                            Result<TokenModel, ErrorModel>,
                        >::empty());
                        assert(errs_of(spec_items(input0, t@.index)) =~= Seq::<
                            ErrorModel,
                        >::empty());
                        assert(errors_model(out@) + errs_of(spec_items(input0, t@.index))
                            =~= errors_model(out@));
                    }
                    break ;
                },
                Some(item) => {
                    proof {
                        if i_before <= input0.len() {
                            lemma_step_in_range(input0, i_before);
                        }
                        let step = spec_step(input0, i_before);
                        assert(step is Item);
                        lemma_errs_of_cons(step->item, spec_items(input0, t@.index));
                    }
                    match item {
                        Ok(_) => {},
                        Err(e) => {
                            out.push(e);
                            proof {
                                assert(errors_model(out@) =~= errors_model(out_prev).push(
                                    out@.last()@,
                                ));
                                assert(errors_model(out_prev).push(out@.last()@) + errs_of(
                                    spec_items(input0, t@.index),
                                ) =~= errors_model(out_prev) + (seq![out@.last()@] + errs_of(
                                    spec_items(input0, t@.index),
                                )));
                            }
                        },
                    }
                },
            }
        }
        out
    }
}


/// Position `i` does not split a digit run or a letter run: a token
/// starting there extends any run to its left.  Every cursor position the
/// scan classifies at satisfies this.
pub open spec fn boundary(input: Seq<char>, i: int) -> bool {
    i <= 0 || i >= input.len() || {
        &&& (spec_is_digit(input[i]) ==> !spec_is_digit(input[i - 1]))
        &&& (spec_is_letter(input[i]) ==> !spec_is_letter(input[i - 1]))
    }
}

/// A token's literal can be re-sliced from the input at its own location:
/// `input[start..=end]`, with the quotes excluded for a string literal.
pub open spec fn literal_matches(input: Seq<char>, t: TokenModel) -> bool {
    match t {
        TokenModel::Number(l) => 0 <= l.start <= l.end < input.len() && l.literal
            == input.subrange(l.start, l.end + 1),
        TokenModel::Identifier(l) => 0 <= l.start <= l.end < input.len() && l.literal
            == input.subrange(l.start, l.end + 1),
        TokenModel::String(l) => 0 <= l.start < l.end < input.len() && spec_is_string_delimiter(
            input[l.start],
        ) && spec_is_string_delimiter(input[l.end]) && l.literal == input.subrange(
            l.start + 1,
            l.end,
        ),
        TokenModel::Colon(l) => single_loc_matches(input, l),
        TokenModel::Plus(l) => single_loc_matches(input, l),
        TokenModel::Minus(l) => single_loc_matches(input, l),
        TokenModel::Star(l) => single_loc_matches(input, l),
        TokenModel::Percentage(l) => single_loc_matches(input, l),
        TokenModel::EOL(l) => single_loc_matches(input, l),
        TokenModel::EOF => true,
    }
}

/// The location of a single-character token and its matched text.
pub open spec fn single_loc_matches(input: Seq<char>, l: LocModel) -> bool {
    &&& 0 <= l.start < input.len()
    &&& l.end == l.start
    &&& l.literal == input.subrange(l.start, l.start + 1)
}

/// A `Number` token is never preceded or followed by a further digit, and
/// an `Identifier` token never by a further letter or underscore: maximal
/// munch, runs are never split.
pub open spec fn token_maximal(input: Seq<char>, t: TokenModel) -> bool {
    match t {
        TokenModel::Number(l) => (l.start <= 0 || !spec_is_digit(input[l.start - 1])) && (l.end + 1
            >= input.len() || !spec_is_digit(input[l.end + 1])),
        TokenModel::Identifier(l) => (l.start <= 0 || !spec_is_letter(input[l.start - 1])) && (
        l.end + 1 >= input.len() || !spec_is_letter(input[l.end + 1])),
        _ => true,
    }
}

proof fn lemma_items_shape(input: Seq<char>, i: int)
    requires
        0 <= i <= input.len(),
    ensures
        1 <= spec_items(input, i).len() <= input.len() + 1 - i,
        spec_items(input, i).last() == Ok::<TokenModel, ErrorModel>(TokenModel::EOF),
        forall|k: int|
            0 <= k < spec_items(input, i).len() - 1 ==> spec_items(input, i)[k] != Ok::<
                TokenModel,
                ErrorModel,
            >(TokenModel::EOF),
    decreases input.len() + 1 - i,
{
    lemma_step_in_range(input, i);
    let step = spec_step(input, i);
    let item = step->item;
    let next = step->next;
    let s = spec_items(input, i);
    if next == input.len() + 1 {
        assert(spec_items(input, next) =~= Seq::<Result<TokenModel, ErrorModel>>::empty());
        assert(s =~= seq![item]);
    } else {
        lemma_items_shape(input, next);
        let rest = spec_items(input, next);
        assert(s =~= seq![item] + rest);
        assert(s.last() == rest.last());
        assert forall|k: int|
            0 <= k < s.len() - 1 implies s[k] != Ok::<TokenModel, ErrorModel>(
            TokenModel::EOF,
        ) by {
            if k == 0 {
            } else {
                assert(s[k] == rest[k - 1]);
            }
        }
    }
}

/// For every input the scan is finite: it yields at most one result more
/// than the input has characters, its last result is `EOF`, and `EOF`
/// appears nowhere earlier.
pub proof fn lemma_terminal_eof(input: Seq<char>)
    ensures
        1 <= spec_items(input, 0).len() <= input.len() + 1,
        spec_items(input, 0).last() == Ok::<TokenModel, ErrorModel>(TokenModel::EOF),
        forall|k: int|
            0 <= k < spec_items(input, 0).len() - 1 ==> spec_items(input, 0)[k] != Ok::<
                TokenModel,
                ErrorModel,
            >(TokenModel::EOF),
{
    lemma_items_shape(input, 0);
}

/// Restartability: two independent scanners over the same input yield
/// pointwise-identical result sequences.  Together with the contract of
/// [`Tokenizer::collect_all`], draining two fresh instances over the same
/// buffer gives two vectors with the same model.
pub proof fn lemma_restartable(a: Tokenizer, b: Tokenizer)
    requires
        a@.input == b@.input,
        a@.index == b@.index,
    ensures
        spec_items(a@.input, a@.index) == spec_items(b@.input, b@.index),
{
}

proof fn lemma_literals_from(input: Seq<char>, i: int)
    requires
        0 <= i <= input.len(),
    ensures
        forall|k: int|
            0 <= k < spec_items(input, i).len() && #[trigger] spec_items(input, i)[k] is Ok
                ==> literal_matches(input, spec_items(input, i)[k]->Ok_0),
    decreases input.len() + 1 - i,
{
    if i < input.len() && spec_is_blank(input[i]) {
        lemma_literals_from(input, i + 1);
        assert(spec_items(input, i) == spec_items(input, i + 1));
    } else {
        lemma_step_in_range(input, i);
        let step = spec_step(input, i);
        let item = step->item;
        let next = step->next;
        let s = spec_items(input, i);
        if i < input.len() {
            let c = input[i];
            if spec_is_operator(c) || spec_is_line_break(c) {
                assert(input.subrange(i, i + 1) =~= seq![c]);
            } else if spec_is_string_delimiter(c) {
                lemma_quote_scan_end(input, i + 1);
            } else if spec_is_letter(c) {
                lemma_letter_run_end(input, i);
            } else if spec_is_digit(c) {
                lemma_digit_run_end(input, i);
            }
        }
        if next == input.len() + 1 {
            assert(spec_items(input, next) =~= Seq::<Result<TokenModel, ErrorModel>>::empty());
            assert(s =~= seq![item]);
        } else {
            lemma_literals_from(input, next);
            let rest = spec_items(input, next);
            assert(s =~= seq![item] + rest);
            assert forall|k: int|
                0 <= k < s.len() && #[trigger] s[k] is Ok implies literal_matches(
                input,
                s[k]->Ok_0,
            ) by {
                if k == 0 {
                } else {
                    assert(s[k] == rest[k - 1]);
                }
            }
        }
    }
}

/// Literal round-trip: every token of the scan carries exactly the text of
/// the input at its own location, quotes excluded for string literals.
pub proof fn lemma_literal_round_trip(input: Seq<char>)
    ensures
        forall|k: int|
            0 <= k < spec_items(input, 0).len() && #[trigger] spec_items(input, 0)[k] is Ok
                ==> literal_matches(input, spec_items(input, 0)[k]->Ok_0),
{
    lemma_literals_from(input, 0);
}

proof fn lemma_munch_from(input: Seq<char>, i: int)
    requires
        0 <= i <= input.len(),
        boundary(input, i),
    ensures
        forall|k: int|
            0 <= k < spec_items(input, i).len() && #[trigger] spec_items(input, i)[k] is Ok
                ==> token_maximal(input, spec_items(input, i)[k]->Ok_0),
    decreases input.len() + 1 - i,
{
    if i < input.len() && spec_is_blank(input[i]) {
        lemma_munch_from(input, i + 1);
        assert(spec_items(input, i) == spec_items(input, i + 1));
    } else {
        lemma_step_in_range(input, i);
        let step = spec_step(input, i);
        let item = step->item;
        let next = step->next;
        let s = spec_items(input, i);
        if i < input.len() {
            let c = input[i];
            if spec_is_operator(c) || spec_is_line_break(c) {
            } else if spec_is_string_delimiter(c) {
                lemma_quote_scan_end(input, i + 1);
            } else if spec_is_letter(c) {
                lemma_letter_run_end(input, i);
            } else if spec_is_digit(c) {
                lemma_digit_run_end(input, i);
            }
        }
        if next == input.len() + 1 {
            assert(spec_items(input, next) =~= Seq::<Result<TokenModel, ErrorModel>>::empty());
            assert(s =~= seq![item]);
        } else {
            assert(boundary(input, next));
            lemma_munch_from(input, next);
            let rest = spec_items(input, next);
            assert(s =~= seq![item] + rest);
            assert forall|k: int|
                0 <= k < s.len() && #[trigger] s[k] is Ok implies token_maximal(
                input,
                s[k]->Ok_0,
            ) by {
                if k == 0 {
                } else {
                    assert(s[k] == rest[k - 1]);
                }
            }
        }
    }
}

/// Maximal munch: digit runs and letter runs are never split, so the scan
/// never yields two adjacent `Number` tokens, nor two adjacent `Identifier`
/// tokens, without an intervening non-digit/non-letter character.
pub proof fn lemma_maximal_munch(input: Seq<char>)
    ensures
        forall|k: int|
            0 <= k < spec_items(input, 0).len() && #[trigger] spec_items(input, 0)[k] is Ok
                ==> token_maximal(input, spec_items(input, 0)[k]->Ok_0),
{
    lemma_munch_from(input, 0);
}


/// An error's location points at a real offence: an `UnknownToken` error
/// carries an unrecognized character, and an `UnterminatedString` error an
/// opening quote that no closing quote follows.
pub open spec fn error_matches(input: Seq<char>, e: ErrorModel) -> bool {
    match e {
        ErrorModel::UnknownToken(l) => {
            &&& 0 <= l.start < input.len()
            &&& l.end == l.start
            &&& l.literal == input.subrange(l.start, l.start + 1)
            &&& spec_is_unknown(input[l.start])
        },
        ErrorModel::UnterminatedString(l) => {
            &&& 0 <= l.start < input.len()
            &&& l.end == l.start
            &&& l.literal == input.subrange(l.start, l.start + 1)
            &&& spec_is_string_delimiter(input[l.start])
            &&& forall|k: int|
                l.start < k < input.len() ==> !spec_is_string_delimiter(#[trigger] input[k])
        },
    }
}

proof fn lemma_error_locations_from(input: Seq<char>, i: int)
    requires
        0 <= i <= input.len(),
    ensures
        forall|k: int|
            0 <= k < spec_items(input, i).len() && #[trigger] spec_items(input, i)[k] is Err
                ==> error_matches(input, spec_items(input, i)[k]->Err_0),
    decreases input.len() + 1 - i,
{
    if i < input.len() && spec_is_blank(input[i]) {
        lemma_error_locations_from(input, i + 1);
        assert(spec_items(input, i) == spec_items(input, i + 1));
    } else {
        lemma_step_in_range(input, i);
        let step = spec_step(input, i);
        let item = step->item;
        let next = step->next;
        let s = spec_items(input, i);
        if i < input.len() {
            let c = input[i];
            if spec_is_string_delimiter(c) {
                lemma_quote_scan_end(input, i + 1);
                assert(input.subrange(i, i + 1) =~= seq![c]);
            } else if spec_is_letter(c) {
                lemma_letter_run_end(input, i);
            } else if spec_is_digit(c) {
                lemma_digit_run_end(input, i);
            } else if !(spec_is_operator(c) || spec_is_line_break(c)) {
                assert(spec_is_unknown(c));
                assert(input.subrange(i, i + 1) =~= seq![c]);
            }
        }
        if next == input.len() + 1 {
            assert(spec_items(input, next) =~= Seq::<Result<TokenModel, ErrorModel>>::empty());
            assert(s =~= seq![item]);
        } else {
            lemma_error_locations_from(input, next);
            let rest = spec_items(input, next);
            assert(s =~= seq![item] + rest);
            assert forall|k: int|
                0 <= k < s.len() && #[trigger] s[k] is Err implies error_matches(
                input,
                s[k]->Err_0,
            ) by {
                if k == 0 {
                } else {
                    assert(s[k] == rest[k - 1]);
                }
            }
        }
    }
}

/// Every error of the scan is a real, local offence of the input: its
/// location re-slices to the offending character, which no classification
/// rule recognizes, or to an opening quote that is never closed.
pub proof fn lemma_error_round_trip(input: Seq<char>)
    ensures
        forall|k: int|
            0 <= k < spec_items(input, 0).len() && #[trigger] spec_items(input, 0)[k] is Err
                ==> error_matches(input, spec_items(input, 0)[k]->Err_0),
{
    lemma_error_locations_from(input, 0);
}

/// A character that no classification rule recognizes.
pub open spec fn spec_is_unknown(c: char) -> bool {
    !(spec_is_operator(c) || spec_is_line_break(c) || spec_is_string_delimiter(c)
        || spec_is_letter(c) || spec_is_digit(c) || spec_is_blank(c))
}

/// The number of unrecognized characters at or after position `i`.
pub open spec fn unknown_count(input: Seq<char>, i: int) -> int
    decreases input.len() - i,
{
    if 0 <= i < input.len() {
        (if spec_is_unknown(input[i]) {
            1int
        } else {
            0int
        }) + unknown_count(input, i + 1)
    } else {
        0
    }
}

proof fn lemma_unknown_count_over_known(input: Seq<char>, i: int, j: int)
    requires
        0 <= i <= j <= input.len(),
        forall|k: int| i <= k < j ==> !spec_is_unknown(#[trigger] input[k]),
    ensures
        unknown_count(input, i) == unknown_count(input, j),
    decreases j - i,
{
    if i < j {
        lemma_unknown_count_over_known(input, i + 1, j);
    }
}

proof fn lemma_errors_from(input: Seq<char>, i: int)
    requires
        0 <= i <= input.len(),
        forall|k: int| i <= k < input.len() ==> !spec_is_string_delimiter(#[trigger] input[k]),
    ensures
        errs_of(spec_items(input, i)).len() == unknown_count(input, i),
    decreases input.len() + 1 - i,
{
    if i < input.len() && spec_is_blank(input[i]) {
        lemma_errors_from(input, i + 1);
        assert(spec_items(input, i) == spec_items(input, i + 1));
    } else if i == input.len() {
        lemma_step_in_range(input, i);
        let step = spec_step(input, i);
        assert(spec_items(input, i) =~= seq![step->item] + spec_items(input, step->next));
        assert(spec_items(input, step->next) =~= Seq::<Result<TokenModel, ErrorModel>>::empty());
        lemma_errs_of_cons(step->item, spec_items(input, step->next));
    } else {
        lemma_step_in_range(input, i);
        let step = spec_step(input, i);
        let item = step->item;
        let next = step->next;
        assert(spec_items(input, i) =~= seq![item] + spec_items(input, next));
        let c = input[i];
        assert(!spec_is_string_delimiter(c));
        lemma_errors_from(input, next);
        lemma_errs_of_cons(item, spec_items(input, next));
        if spec_is_operator(c) || spec_is_line_break(c) {
        } else if spec_is_letter(c) {
            lemma_letter_run_end(input, i);
            lemma_unknown_count_over_known(input, i, next);
        } else if spec_is_digit(c) {
            lemma_digit_run_end(input, i);
            lemma_unknown_count_over_known(input, i, next);
        } else {
            assert(spec_is_unknown(c));
        }
    }
}

/// Error tolerance: over input that holds no string delimiter, a full
/// drain yields exactly one error per unrecognized character; every valid
/// token around the errors is still produced, as the other laws state of
/// the same sequence.
pub proof fn lemma_error_tolerance(input: Seq<char>)
    requires
        forall|k: int| 0 <= k < input.len() ==> !spec_is_string_delimiter(#[trigger] input[k]),
    ensures
        errs_of(spec_items(input, 0)).len() == unknown_count(input, 0),
{
    lemma_errors_from(input, 0);
}

} // verus!
