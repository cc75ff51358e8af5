//! The character-level lexer and its specification.
//!
//! `lex_step` is the specification: given the input and a cursor
//! offset, it says which token (if any) begins at the first
//! non-whitespace character, what its text is, and where the cursor
//! stands after it. The executable [`Lexer`] is proved to follow
//! `lex_step` exactly, one token per call of [`Lexer::next`].

use vstd::prelude::*;
use vstd::string::*;

use crate::text::alpha_run_end;
use crate::text::col_at;
use crate::text::digit_run_end;
use crate::text::lemma_alpha_run_end;
use crate::text::lemma_digit_run_end;
use crate::text::lemma_position_bounds;
use crate::text::lemma_str_body_end;
use crate::text::lemma_ws_end;
use crate::text::lemma_ws_end_ge;
use crate::text::row_at;
use crate::text::is_digit_char;
use crate::text::starts_literal;
use crate::text::str_body_end;
use crate::text::ws_end;
use crate::token::Token;
use crate::token::TokenType;

verus! {

/// What one pull on the lexer yields, at the specification level.
///
/// In `Tok`, `text` is the token's matched text, `pos` the offset whose
/// line and column the token records, and `next` the cursor offset
/// after the token. The two failure shapes carry the offset at which
/// the fault lies.
pub ghost enum LexStep {
    End,
    Tok { typ: TokenType, text: Seq<char>, pos: int, next: int },
    BadChar { c: char, pos: int },
    BadLit { text: Seq<char>, pos: int },
}

/// The token kind of a single-character symbol, if `c` is one.
pub open spec fn symbol_kind(c: char) -> Option<TokenType> {
    if c == '{' {
        Some(TokenType::LeftBrace)
    } else if c == '}' {
        Some(TokenType::RightBrace)
    } else if c == '[' {
        Some(TokenType::LeftBracket)
    } else if c == ']' {
        Some(TokenType::RightBracket)
    } else if c == ':' {
        Some(TokenType::Colon)
    } else if c == ',' {
        Some(TokenType::Comma)
    } else {
        None
    }
}

/// The three alphabetic runs that form a valid literal token.
pub open spec fn lit_ok(t: Seq<char>) -> bool {
    t == "true"@ || t == "false"@ || t == "null"@
}

/// The token beginning exactly at offset `i`, which must hold a
/// non-whitespace character.
///
/// A string token's text runs strictly between the opening quote and
/// its terminator (a closing quote or a whitespace character, whichever
/// comes first; the end of the input also closes it), and the
/// terminator is consumed when present. A number token is a maximal
/// run of ASCII digits and must begin with a digit. A literal token
/// is a maximal run of ASCII letters and must read `true`, `false` or
/// `null`. Every other character — `.` included, since no token can
/// begin there — is a lexical fault, so every token consumes at least
/// one character and tokens come in strictly increasing positions.
pub open spec fn lex_token_at(s: Seq<char>, i: int) -> LexStep
    recommends
        0 <= i < s.len(),
{
    let c = s[i];
    if symbol_kind(c) is Some {
        LexStep::Tok {
            typ: symbol_kind(c)->Some_0,
            text: s.subrange(i, i + 1),
            pos: i,
            next: i + 1,
        }
    } else if starts_literal(c) {
        let j = alpha_run_end(s, i);
        if lit_ok(s.subrange(i, j)) {
            LexStep::Tok { typ: TokenType::Literal, text: s.subrange(i, j), pos: i, next: j }
        } else {
            LexStep::BadLit { text: s.subrange(i, j), pos: i }
        }
    } else if c == '"' {
        let j = str_body_end(s, i + 1);
        LexStep::Tok {
            typ: TokenType::String,
            text: s.subrange(i + 1, j),
            pos: i + 1,
            next: if j < s.len() {
                j + 1
            } else {
                j
            },
        }
    } else if is_digit_char(c) {
        LexStep::Tok {
            typ: TokenType::Number,
            text: s.subrange(i, digit_run_end(s, i)),
            pos: i,
            next: digit_run_end(s, i),
        }
    } else {
        LexStep::BadChar { c, pos: i }
    }
}

/// One pull on the lexer from cursor offset `p`: whitespace is skipped
/// first, then the token at the first non-whitespace character is
/// classified. `End` when only whitespace remains.
pub open spec fn lex_step(s: Seq<char>, p: int) -> LexStep {
    let i = ws_end(s, p);
    if i >= s.len() {
        LexStep::End
    } else {
        lex_token_at(s, i)
    }
}

/// A lexical fault: an unrecognized character, or an alphabetic run
/// that is none of `true`, `false`, `null`. Each carries the 1-based
/// line and column at which it was met; `InvalidLiteral` borrows the
/// offending run from the input.
#[derive(Debug, Clone, Copy, PartialEq)]
pub enum LexError<'a> {
    InvalidChar { ch: char, row: usize, col: usize },
    InvalidLiteral { text: &'a str, row: usize, col: usize },
}

/// Whether the error value `e` reports exactly the fault that `step`
/// holds, with the line and column of its offset in `s`.
pub open spec fn lex_error_matches(e: LexError, s: Seq<char>, step: LexStep) -> bool {
    match step {
        LexStep::BadChar { c, pos } => e matches LexError::InvalidChar { ch, row, col }
            && ch == c && row as int == row_at(s, pos) && col as int == col_at(s, pos),
        LexStep::BadLit { text, pos } => e matches LexError::InvalidLiteral { text: t, row, col }
            && t@ == text && row as int == row_at(s, pos) && col as int == col_at(s, pos),
        _ => false,
    }
}

/// Scans the input one character at a time, skipping whitespace and
/// classifying runs of characters into tokens, while tracking the
/// 1-based line and column of the cursor.
pub struct Lexer<'a> {
    pub input: &'a str,
    pub pos: usize,
    pub row: usize,
    pub col: usize,
}

impl<'a> Lexer<'a> {
    /// The cursor lies within the input and the position counters agree
    /// with the text behind it.
    pub open spec fn wf(self) -> bool {
        &&& self.pos <= self.input@.len()
        &&& self.input@.len() < usize::MAX
        &&& self.row as int == row_at(self.input@, self.pos as int)
        &&& self.col as int == col_at(self.input@, self.pos as int)
    }

    /// A lexer over `input`, with the cursor at the first character of
    /// line 1, column 1. The input must hold fewer than `usize::MAX`
    /// characters, so that the position counters always fit.
    pub fn new(input: &'a str) -> (l: Lexer<'a>)
        requires
            input@.len() < usize::MAX,
        ensures
            l.wf(),
            l.input == input,
            l.pos == 0,
            l.row == 1,
            l.col == 1,
    {
        Lexer { input, pos: 0, col: 1, row: 1 }
    }

    /// The character under the cursor, or `None` at the end of the
    /// input.
    fn curr(&self) -> (c: Option<char>)
        requires
            self.wf(),
        ensures
            match c {
                Some(ch) => self.pos < self.input@.len() && ch == self.input@[self.pos as int],
                None => self.pos == self.input@.len(),
            },
    {
        if self.pos < self.input.unicode_len() {
            Some(self.input.get_char(self.pos))
        } else {
            None
        }
    }

    /// Advances the cursor one character, starting a new line after a
    /// newline. At the end of the input it does nothing.
    fn read_char(&mut self)
        requires
            old(self).wf(),
        ensures
            final(self).wf(),
            final(self).input == old(self).input,
            old(self).pos < old(self).input@.len() ==> final(self).pos == old(self).pos + 1,
            old(self).pos == old(self).input@.len() ==> *final(self) == *old(self),
    {
        proof {
            lemma_position_bounds(self.input@, self.pos as int);
        }
        match self.curr() {
            Some(c) => {
                if c == '\n' {
                    self.pos = self.pos + 1;
                    self.col = 1;
                    self.row = self.row + 1;
                } else {
                    self.pos = self.pos + 1;
                    self.col = self.col + 1;
                }
            },
            None => {},
        }
    }

    /// Emits the single-character token under the cursor and advances
    /// past it.
    fn symbol(&mut self, typ: TokenType) -> (t: Token<'a>)
        requires
            old(self).wf(),
            old(self).pos < old(self).input@.len(),
        ensures
            final(self).wf(),
            final(self).input == old(self).input,
            final(self).pos == old(self).pos + 1,
            t.typ == typ,
            t.val@ == old(self).input@.subrange(old(self).pos as int, old(self).pos + 1),
            t.row as int == row_at(old(self).input@, old(self).pos as int),
            t.col as int == col_at(old(self).input@, old(self).pos as int),
    {
        let token = Token::from_args(
            typ,
            self.input.substring_char(self.pos, self.pos + 1),
            self.row,
            self.col,
        );
        self.read_char();
        token
    }

    /// Skips whitespace, leaving the cursor at the next
    /// non-whitespace character or at the end of the input.
    fn skip_whitespace(&mut self)
        requires
            old(self).wf(),
        ensures
            final(self).wf(),
            final(self).input == old(self).input,
            final(self).pos as int == ws_end(old(self).input@, old(self).pos as int),
    {
        let ghost s = self.input@;
        let ghost p0 = self.pos as int;
        loop
            invariant
                self.wf(),
                self.input@ == s,
                self.input == old(self).input,
                ws_end(s, self.pos as int) == ws_end(s, p0),
            ensures
                self.wf(),
                self.input == old(self).input,
                self.pos as int == ws_end(s, p0),
            decreases self.input@.len() - self.pos,
        {
            match self.curr() {
                Some(c) => {
                    if c == ' ' || c == '\t' || c == '\n' {
                        self.read_char();
                    } else {
                        break ;
                    }
                },
                None => {
                    break ;
                },
            }
        }
    }

    /// Reads a string token: the opening quote is consumed, the text
    /// runs to the first closing quote or whitespace character (or the
    /// end of the input), and the terminator, when present, is consumed
    /// as well.
    fn read_string(&mut self) -> (t: Token<'a>)
        requires
            old(self).wf(),
            old(self).pos < old(self).input@.len(),
            old(self).input@[old(self).pos as int] == '"',
        ensures
            final(self).wf(),
            final(self).input == old(self).input,
            ({
                let s = old(self).input@;
                let i = old(self).pos as int;
                let j = str_body_end(s, i + 1);
                &&& t.typ == TokenType::String
                &&& t.val@ == s.subrange(i + 1, j)
                &&& t.row as int == row_at(s, i + 1)
                &&& t.col as int == col_at(s, i + 1)
                &&& final(self).pos as int == if j < s.len() {
                    j + 1
                } else {
                    j
                }
            }),
    {
        let ghost s = self.input@;
        self.read_char();
        let start = self.pos;
        let row = self.row;
        let col = self.col;
        loop
            invariant
                self.wf(),
                self.input@ == s,
                self.input == old(self).input,
                start <= self.pos,
                str_body_end(s, self.pos as int) == str_body_end(s, start as int),
            ensures
                self.wf(),
                self.input == old(self).input,
                self.pos as int == str_body_end(s, start as int),
            decreases self.input@.len() - self.pos,
        {
            match self.curr() {
                Some(c) => {
                    if c == '"' || c == ' ' || c == '\t' || c == '\n' {
                        break ;
                    } else {
                        self.read_char();
                    }
                },
                None => {
                    break ;
                },
            }
        }
        let val = self.input.substring_char(start, self.pos);
        if self.pos < self.input.unicode_len() {
            self.read_char();
        }
        Token::from_args(TokenType::String, val, row, col)
    }

    /// Reads a number token: a maximal run of ASCII digits.
    fn read_number(&mut self) -> (t: Token<'a>)
        requires
            old(self).wf(),
            old(self).pos < old(self).input@.len(),
        ensures
            final(self).wf(),
            final(self).input == old(self).input,
            ({
                let s = old(self).input@;
                let i = old(self).pos as int;
                let j = digit_run_end(s, i);
                &&& t.typ == TokenType::Number
                &&& t.val@ == s.subrange(i, j)
                &&& t.row as int == row_at(s, i)
                &&& t.col as int == col_at(s, i)
                &&& final(self).pos as int == j
            }),
    {
        let ghost s = self.input@;
        let start = self.pos;
        let row = self.row;
        let col = self.col;
        loop
            invariant
                self.wf(),
                self.input@ == s,
                self.input == old(self).input,
                start <= self.pos,
                digit_run_end(s, self.pos as int) == digit_run_end(s, start as int),
            ensures
                self.wf(),
                self.input == old(self).input,
                self.pos as int == digit_run_end(s, start as int),
            decreases self.input@.len() - self.pos,
        {
            match self.curr() {
                Some(c) => {
                    if '0' <= c && c <= '9' {
                        self.read_char();
                    } else {
                        break ;
                    }
                },
                None => {
                    break ;
                },
            }
        }
        Token::from_args(TokenType::Number, self.input.substring_char(start, self.pos), row, col)
    }

    /// Reads a literal token: a maximal run of ASCII letters, which
    /// must be exactly `true`, `false` or `null`; any other run is a
    /// lexical error.
    fn read_literal(&mut self) -> (r: Result<Token<'a>, LexError<'a>>)
        requires
            old(self).wf(),
            old(self).pos < old(self).input@.len(),
        ensures
            final(self).wf(),
            final(self).input == old(self).input,
            ({
                let s = old(self).input@;
                let i = old(self).pos as int;
                let j = alpha_run_end(s, i);
                &&& final(self).pos as int == j
                &&& if lit_ok(s.subrange(i, j)) {
                    r matches Ok(t) && t.typ == TokenType::Literal && t.val@ == s.subrange(i, j)
                        && t.row as int == row_at(s, i) && t.col as int == col_at(s, i)
                } else {
                    r matches Err(e) && e matches LexError::InvalidLiteral { text, row, col }
                        && text@ == s.subrange(i, j) && row as int == row_at(s, i) && col as int
                        == col_at(s, i)
                }
            }),
    {
        let ghost s = self.input@;
        let start = self.pos;
        let row = self.row;
        let col = self.col;
        loop
            invariant
                self.wf(),
                self.input@ == s,
                self.input == old(self).input,
                start <= self.pos,
                alpha_run_end(s, self.pos as int) == alpha_run_end(s, start as int),
            ensures
                self.wf(),
                self.input == old(self).input,
                self.pos as int == alpha_run_end(s, start as int),
            decreases self.input@.len() - self.pos,
        {
            match self.curr() {
                Some(c) => {
                    if ('a' <= c && c <= 'z') || ('A' <= c && c <= 'Z') {
                        self.read_char();
                    } else {
                        break ;
                    }
                },
                None => {
                    break ;
                },
            }
        }
        let lit = self.input.substring_char(start, self.pos);
        if literal_matches(lit) {
            Ok(Token::from_args(TokenType::Literal, lit, row, col))
        } else {
            Err(LexError::InvalidLiteral { text: lit, row, col })
        }
    }

    /// Pulls the next token, or `Ok(None)` once only whitespace
    /// remains. A returned token always moves the cursor strictly
    /// forward, so repeated pulls reach the end of the input. An
    /// unrecognized character or an invalid literal run is returned
    /// as the error it raises, with its line and column.
    pub fn next(&mut self) -> (r: Result<Option<Token<'a>>, LexError<'a>>)
        requires
            old(self).wf(),
        ensures
            final(self).wf(),
            final(self).input == old(self).input,
            ({
                let s = old(self).input@;
                let p = old(self).pos as int;
                match lex_step(s, p) {
                    LexStep::End => r matches Ok(tok) && tok is None && final(self).pos == s.len(),
                    LexStep::Tok { typ, text, pos, next } => {
                        &&& r matches Ok(tok)
                        &&& tok matches Some(t)
                        &&& t.typ == typ
                        &&& t.val@ == text
                        &&& t.row as int == row_at(s, pos)
                        &&& t.col as int == col_at(s, pos)
                        &&& final(self).pos as int == next
                        &&& final(self).pos > old(self).pos
                    },
                    _ => r matches Err(e) && lex_error_matches(e, s, lex_step(s, p)),
                }
            }),
    {
        let ghost s = self.input@;
        let ghost p = self.pos as int;
        self.skip_whitespace();
        proof {
            lemma_ws_end(s, p);
            lemma_step_next(s, p);
        }
        let c = match self.curr() {
            Some(c) => c,
            None => {
                return Ok(None);
            },
        };
        if c == '{' {
            Ok(Some(self.symbol(TokenType::LeftBrace)))
        } else if c == '}' {
            Ok(Some(self.symbol(TokenType::RightBrace)))
        } else if c == '[' {
            Ok(Some(self.symbol(TokenType::LeftBracket)))
        } else if c == ']' {
            Ok(Some(self.symbol(TokenType::RightBracket)))
        } else if c == ':' {
            Ok(Some(self.symbol(TokenType::Colon)))
        } else if c == ',' {
            Ok(Some(self.symbol(TokenType::Comma)))
        } else if c == 't' || c == 'f' || c == 'n' {
            match self.read_literal() {
                Ok(t) => Ok(Some(t)),
                Err(e) => Err(e),
            }
        } else if c == '"' {
            Ok(Some(self.read_string()))
        } else if '0' <= c && c <= '9' {
            Ok(Some(self.read_number()))
        } else {
            Err(LexError::InvalidChar { ch: c, row: self.row, col: self.col })
        }
    }
}

/// Bounds on the shape of a successful lexing step: the token lies
/// between the cursor and the end of the input, every token consumes
/// at least one character, and a delimiter token sits exactly on its
/// delimiter character.
pub proof fn lemma_step_next(s: Seq<char>, p: int)
    requires
        0 <= p,
    ensures
        match lex_step(s, p) {
            LexStep::Tok { typ, text, pos, next } => {
                &&& p <= ws_end(s, p) <= pos <= next <= s.len()
                &&& next >= p + 1
                &&& pos < next || next == s.len()
                &&& typ is String ==> pos == ws_end(s, p) + 1
                &&& !(typ is String) ==> pos == ws_end(s, p)
                &&& typ is LeftBrace ==> next == pos + 1 && s[pos] == '{'
                &&& typ is RightBrace ==> next == pos + 1 && s[pos] == '}'
                &&& typ is LeftBracket ==> next == pos + 1 && s[pos] == '['
                &&& typ is RightBracket ==> next == pos + 1 && s[pos] == ']'
                &&& typ is Colon ==> next == pos + 1
                &&& typ is Comma ==> next == pos + 1
            },
            _ => true,
        },
{
    lemma_ws_end_ge(s, p);
    let i = ws_end(s, p);
    if i < s.len() {
        lemma_ws_end(s, p);
        let c = s[i];
        if symbol_kind(c) is Some {
        } else if starts_literal(c) {
            lemma_alpha_run_end(s, i);
            lemma_alpha_run_end(s, i + 1);
        } else if c == '"' {
            lemma_str_body_end(s, i + 1);
        } else if is_digit_char(c) {
            lemma_digit_run_end(s, i);
            lemma_digit_run_end(s, i + 1);
        }
    }
}

/// Whether `v` reads exactly `true`, `false` or `null`.
fn literal_matches(v: &str) -> (b: bool)
    ensures
        b == lit_ok(v@),
{
    proof {
        reveal_strlit("true");
        reveal_strlit("false");
        reveal_strlit("null");
    }
    let n = v.unicode_len();
    if n == 4 {
        let is_true = v.get_char(0) == 't' && v.get_char(1) == 'r' && v.get_char(2) == 'u'
            && v.get_char(3) == 'e';
        let is_null = v.get_char(0) == 'n' && v.get_char(1) == 'u' && v.get_char(2) == 'l'
            && v.get_char(3) == 'l';
        proof {
            if is_true {
                assert(v@ =~= "true"@);
            }
            if is_null {
                assert(v@ =~= "null"@);
            }
        }
        is_true || is_null
    } else if n == 5 {
        let is_false = v.get_char(0) == 'f' && v.get_char(1) == 'a' && v.get_char(2) == 'l'
            && v.get_char(3) == 's' && v.get_char(4) == 'e';
        proof {
            if is_false {
                assert(v@ =~= "false"@);
            }
        }
        is_false
    } else {
        false
    }
}

} // verus!
