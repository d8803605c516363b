//! Character classes of the scanned language, maximal-run helpers over
//! character sequences, and a small executable slicing utility shared by
//! both scanner designs.

use vstd::prelude::*;

verus! {

/// An ASCII decimal digit.
pub open spec fn spec_is_digit(c: char) -> bool {
    '0' <= c && c <= '9'
}

/// An ASCII letter.
pub open spec fn spec_is_alpha(c: char) -> bool {
    ('a' <= c && c <= 'z') || ('A' <= c && c <= 'Z')
}

/// A character that may continue an identifier: an ASCII letter or `_`.
pub open spec fn spec_is_letter(c: char) -> bool {
    spec_is_alpha(c) || c == '_'
}

/// The delimiter of a string literal.
pub open spec fn spec_is_string_delimiter(c: char) -> bool {
    c == '"'
}

/// Horizontal whitespace, skipped between tokens.
pub open spec fn spec_is_blank(c: char) -> bool {
    c == ' ' || c == '\t'
}

/// A line terminator.
pub open spec fn spec_is_line_break(c: char) -> bool {
    c == '\n' || c == '\r'
}

#[verifier::when_used_as_spec(spec_is_digit)]
pub fn is_digit(ch: char) -> (r: bool)
    ensures
        r == spec_is_digit(ch),
{
    '0' <= ch && ch <= '9'
}

#[verifier::when_used_as_spec(spec_is_letter)]
pub fn is_letter(ch: char) -> (r: bool)
    ensures
        r == spec_is_letter(ch),
{
    'a' <= ch && ch <= 'z' || 'A' <= ch && ch <= 'Z' || ch == '_'
}

#[verifier::when_used_as_spec(spec_is_alpha)]
pub fn is_alpha(ch: char) -> (r: bool)
    ensures
        r == spec_is_alpha(ch),
{
    'a' <= ch && ch <= 'z' || 'A' <= ch && ch <= 'Z'
}

#[verifier::when_used_as_spec(spec_is_string_delimiter)]
pub fn is_string_delimiter(ch: char) -> (r: bool)
    ensures
        r == spec_is_string_delimiter(ch),
{
    ch == '"'
}

#[verifier::when_used_as_spec(spec_is_blank)]
pub fn is_blank(ch: char) -> (r: bool)
    ensures
        r == spec_is_blank(ch),
{
    ch == ' ' || ch == '\t'
}

#[verifier::when_used_as_spec(spec_is_line_break)]
pub fn is_line_break(ch: char) -> (r: bool)
    ensures
        r == spec_is_line_break(ch),
{
    ch == '\n' || ch == '\r'
}

/// Index just past the maximal run of decimal digits starting at `from`.
pub open spec fn digit_run_end(input: Seq<char>, from: int) -> int
    decreases input.len() - from,
{
    if 0 <= from < input.len() && spec_is_digit(input[from]) {
        digit_run_end(input, from + 1)
    } else {
        from
    }
}

/// Index just past the maximal run of letters/underscores starting at `from`.
pub open spec fn letter_run_end(input: Seq<char>, from: int) -> int
    decreases input.len() - from,
{
    if 0 <= from < input.len() && spec_is_letter(input[from]) {
        letter_run_end(input, from + 1)
    } else {
        from
    }
}

/// Index of the first string delimiter at or after `from`, or the input
/// length if the rest of the input holds none.
pub open spec fn quote_scan_end(input: Seq<char>, from: int) -> int
    decreases input.len() - from,
{
    if 0 <= from < input.len() && !spec_is_string_delimiter(input[from]) {
        quote_scan_end(input, from + 1)
    } else {
        from
    }
}

/// A digit run reaches at least as far as its own start, no further than the
/// input's end; every character inside it is a digit and the character just
/// past it (if any) is not.
pub proof fn lemma_digit_run_end(input: Seq<char>, from: int)
    requires
        0 <= from <= input.len(),
    ensures
        from <= digit_run_end(input, from) <= input.len(),
        forall|k: int| from <= k < digit_run_end(input, from) ==> spec_is_digit(input[k]),
        digit_run_end(input, from) == input.len()
            || !spec_is_digit(input[digit_run_end(input, from)]),
    decreases input.len() - from,
{
    if from < input.len() && spec_is_digit(input[from]) {
        lemma_digit_run_end(input, from + 1);
    }
}

/// The analogue of [`lemma_digit_run_end`] for letter/underscore runs.
pub proof fn lemma_letter_run_end(input: Seq<char>, from: int)
    requires
        0 <= from <= input.len(),
    ensures
        from <= letter_run_end(input, from) <= input.len(),
        forall|k: int| from <= k < letter_run_end(input, from) ==> spec_is_letter(input[k]),
        letter_run_end(input, from) == input.len()
            || !spec_is_letter(input[letter_run_end(input, from)]),
    decreases input.len() - from,
{
    if from < input.len() && spec_is_letter(input[from]) {
        lemma_letter_run_end(input, from + 1);
    }
}

/// The scan for a closing quote stops at the first delimiter, or at the end
/// of the input when no delimiter remains.
pub proof fn lemma_quote_scan_end(input: Seq<char>, from: int)
    requires
        0 <= from <= input.len(),
    ensures
        from <= quote_scan_end(input, from) <= input.len(),
        forall|k: int|
            from <= k < quote_scan_end(input, from) ==> !spec_is_string_delimiter(input[k]),
        quote_scan_end(input, from) == input.len()
            || spec_is_string_delimiter(input[quote_scan_end(input, from)]),
    decreases input.len() - from,
{
    if from < input.len() && !spec_is_string_delimiter(input[from]) {
        lemma_quote_scan_end(input, from + 1);
    }
}

/// Copies `input[from..to]` into a fresh vector.
pub fn copy_range(input: &Vec<char>, from: usize, to: usize) -> (r: Vec<char>)
    requires
        from <= to <= input@.len(),
    ensures
        r@ == input@.subrange(from as int, to as int),
{
    let mut r: Vec<char> = Vec::new();
    let mut i: usize = from;
    while i < to
        invariant
            from <= i <= to <= input@.len(),
            r@ == input@.subrange(from as int, i as int),
        decreases to - i,
    {
        r.push(input[i]);
        i = i + 1;
        proof {
            assert(input@.subrange(from as int, i as int) =~= input@.subrange(
                from as int,
                i - 1,
            ).push(input@[i - 1]));
        }
    }
    r
}

/// A one-element character vector.
pub fn singleton(ch: char) -> (r: Vec<char>)
    ensures
        r@ == seq![ch],
{
    let mut r: Vec<char> = Vec::new();
    r.push(ch);
    proof {
        assert(r@ =~= seq![ch]);
    }
    r
}

/// Compares two character vectors element by element.
pub fn char_vec_eq(a: &Vec<char>, b: &Vec<char>) -> (r: bool)
    ensures
        r == (a@ == b@),
{
    if a.len() != b.len() {
        return false;
    }
    let mut i: usize = 0;
    while i < a.len()
        invariant
            i <= a@.len(),
            a@.len() == b@.len(),
            forall|k: int| 0 <= k < i ==> a@[k] == b@[k],
        decreases a@.len() - i,
    {
        if a[i] != b[i] {
            return false;
        }
        i = i + 1;
    }
    proof {
        assert(a@ =~= b@);
    }
    true
}

} // verus!
