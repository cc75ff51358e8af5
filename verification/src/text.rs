//! Character classes and positional arithmetic over the input text.
//!
//! The lexer scans a sequence of characters. The spec functions here say,
//! character by character, where a run of whitespace, digits or letters
//! ends, and what line and column a given offset lies at. Lines and
//! columns are both 1-based: the first character of the input, and the
//! first character after each newline, sit in column 1.

use vstd::prelude::*;

verus! {

/// Whitespace as the lexer skips it: space, tab and newline.
pub open spec fn is_ws_char(c: char) -> bool {
    c == ' ' || c == '\t' || c == '\n'
}

/// ASCII decimal digit.
pub open spec fn is_digit_char(c: char) -> bool {
    '0' <= c && c <= '9'
}

/// ASCII letter; literal tokens are maximal runs of these.
pub open spec fn is_alpha_char(c: char) -> bool {
    ('a' <= c && c <= 'z') || ('A' <= c && c <= 'Z')
}

/// Characters that open a literal token (`true`, `false`, `null`).
pub open spec fn starts_literal(c: char) -> bool {
    c == 't' || c == 'f' || c == 'n'
}

/// Index of the first character at or after `i` that is not whitespace,
/// or `s.len()` if only whitespace remains.
pub open spec fn ws_end(s: Seq<char>, i: int) -> int
    decreases s.len() - i,
{
    if i < 0 || i >= s.len() {
        i
    } else if is_ws_char(s[i]) {
        ws_end(s, i + 1)
    } else {
        i
    }
}

/// End of the maximal run of ASCII digits starting at `i`.
pub open spec fn digit_run_end(s: Seq<char>, i: int) -> int
    decreases s.len() - i,
{
    if i < 0 || i >= s.len() {
        i
    } else if is_digit_char(s[i]) {
        digit_run_end(s, i + 1)
    } else {
        i
    }
}

/// End of the maximal run of ASCII letters starting at `i`.
pub open spec fn alpha_run_end(s: Seq<char>, i: int) -> int
    decreases s.len() - i,
{
    if i < 0 || i >= s.len() {
        i
    } else if is_alpha_char(s[i]) {
        alpha_run_end(s, i + 1)
    } else {
        i
    }
}

/// Index of the character that terminates a string body begun at `i`:
/// the first closing quote or whitespace character, or `s.len()` if
/// neither occurs.
pub open spec fn str_body_end(s: Seq<char>, i: int) -> int
    decreases s.len() - i,
{
    if i < 0 || i >= s.len() {
        i
    } else if s[i] == '"' || is_ws_char(s[i]) {
        i
    } else {
        str_body_end(s, i + 1)
    }
}

/// Line of the character at offset `p`: one more than the number of
/// newlines strictly before `p`.
pub open spec fn row_at(s: Seq<char>, p: int) -> int
    decreases p,
{
    if p <= 0 {
        1
    } else {
        row_at(s, p - 1) + if s[p - 1] == '\n' {
            1int
        } else {
            0int
        }
    }
}

/// Offset at which the line containing offset `p` begins.
pub open spec fn line_start(s: Seq<char>, p: int) -> int
    decreases p,
{
    if p <= 0 {
        0
    } else if s[p - 1] == '\n' {
        p
    } else {
        line_start(s, p - 1)
    }
}

/// Column of the character at offset `p`, 1-based within its line.
pub open spec fn col_at(s: Seq<char>, p: int) -> int {
    p - line_start(s, p) + 1
}

pub proof fn lemma_ws_end(s: Seq<char>, i: int)
    requires
        0 <= i <= s.len(),
    ensures
        i <= ws_end(s, i) <= s.len(),
        forall|j: int| i <= j < ws_end(s, i) ==> is_ws_char(s[j]),
        ws_end(s, i) < s.len() ==> !is_ws_char(s[ws_end(s, i)]),
    decreases s.len() - i,
{
    if i < s.len() && is_ws_char(s[i]) {
        lemma_ws_end(s, i + 1);
    }
}

pub proof fn lemma_digit_run_end(s: Seq<char>, i: int)
    requires
        0 <= i <= s.len(),
    ensures
        i <= digit_run_end(s, i) <= s.len(),
        forall|j: int| i <= j < digit_run_end(s, i) ==> is_digit_char(s[j]),
        digit_run_end(s, i) < s.len() ==> !is_digit_char(s[digit_run_end(s, i)]),
    decreases s.len() - i,
{
    if i < s.len() && is_digit_char(s[i]) {
        lemma_digit_run_end(s, i + 1);
    }
}

pub proof fn lemma_alpha_run_end(s: Seq<char>, i: int)
    requires
        0 <= i <= s.len(),
    ensures
        i <= alpha_run_end(s, i) <= s.len(),
        forall|j: int| i <= j < alpha_run_end(s, i) ==> is_alpha_char(s[j]),
        alpha_run_end(s, i) < s.len() ==> !is_alpha_char(s[alpha_run_end(s, i)]),
    decreases s.len() - i,
{
    if i < s.len() && is_alpha_char(s[i]) {
        lemma_alpha_run_end(s, i + 1);
    }
}

pub proof fn lemma_str_body_end(s: Seq<char>, i: int)
    requires
        0 <= i <= s.len(),
    ensures
        i <= str_body_end(s, i) <= s.len(),
        forall|j: int|
            i <= j < str_body_end(s, i) ==> s[j] != '"' && !is_ws_char(s[j]),
        str_body_end(s, i) < s.len() ==> (s[str_body_end(s, i)] == '"' || is_ws_char(
            s[str_body_end(s, i)],
        )),
    decreases s.len() - i,
{
    if i < s.len() && !(s[i] == '"' || is_ws_char(s[i])) {
        lemma_str_body_end(s, i + 1);
    }
}

pub proof fn lemma_ws_end_ge(s: Seq<char>, i: int)
    ensures
        ws_end(s, i) >= i,
    decreases s.len() - i,
{
    if 0 <= i < s.len() && is_ws_char(s[i]) {
        lemma_ws_end_ge(s, i + 1);
    }
}

/// Rows and columns stay within one past the offset, so the counters
/// the lexer keeps never overflow a `usize` while the offset fits.
pub proof fn lemma_position_bounds(s: Seq<char>, p: int)
    requires
        0 <= p,
    ensures
        1 <= row_at(s, p) <= p + 1,
        0 <= line_start(s, p) <= p,
        1 <= col_at(s, p) <= p + 1,
    decreases p,
{
    if p > 0 {
        lemma_position_bounds(s, p - 1);
    }
}

} // verus!
