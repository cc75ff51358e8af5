//! The recursive-descent parser and its specification.
//!
//! `spec_parse_value` is the specification: a total function from the
//! input and a cursor offset to the parsed value model and the cursor
//! offset after it, or to the error that aborts the parse. The
//! executable [`Parser`] pulls tokens from the lexer with one token of
//! lookahead and is proved to return exactly what the specification
//! says, error cases included.
//!
//! Delimiters are matched strictly: an object must close with `}` and
//! a list with `]`, every entry or element is separated from the next
//! by a comma, and a missing separator or closing delimiter is a
//! structural error rather than a silent stop. `{}` and `[]` are the
//! empty composites; a trailing comma is an error.

use vstd::prelude::*;
use vstd::string::*;

use crate::lexer::lex_error_matches;
use crate::lexer::lex_step;
use crate::lexer::lemma_step_next;
use crate::lexer::LexError;
use crate::lexer::Lexer;
use crate::lexer::LexStep;
use crate::text::col_at;
use crate::text::row_at;
use crate::token::Token;
use crate::token::TokenType;
use crate::value::entries_model;
use crate::value::insert_entry;
use crate::value::model_of;
use crate::value::models_of;
use crate::value::upsert;
use crate::value::Value;
use crate::value::ValueModel;

verus! {

/// The error that aborts a parse, at the specification level. The
/// first two shapes are lexical faults; the rest are structural.
/// `found` is the text of the offending token and `pos` the offset
/// whose line and column the report carries.
pub ghost enum ErrModel {
    BadChar { c: char, pos: int },
    BadLit { text: Seq<char>, pos: int },
    KeyNotString { found: Seq<char>, pos: int },
    MissingColon { found: Seq<char>, pos: int },
    NoValue { found: Seq<char>, pos: int },
    NoCommaOrClose { found: Seq<char>, pos: int },
    Eof,
}

/// What parsing yields at the specification level: a value model and
/// the cursor offset just past the value's last token, or the error
/// that aborts the parse.
pub ghost enum ParseOut {
    Val { m: ValueModel, end: int },
    Fail { e: ErrModel },
}

/// The `pos` field of the token pulled at offset `p`.
pub open spec fn step_pos(s: Seq<char>, p: int) -> int {
    match lex_step(s, p) {
        LexStep::Tok { pos, .. } => pos,
        _ => 0,
    }
}

/// The cursor offset after the token pulled at offset `p`.
pub open spec fn step_next(s: Seq<char>, p: int) -> int {
    match lex_step(s, p) {
        LexStep::Tok { next, .. } => next,
        _ => s.len() as int,
    }
}

/// One value parsed from offset `p`: a primitive token is the value
/// itself, `{` opens an object, `[` opens a list, and an exhausted
/// input stands for the empty document and yields `null`. Any other
/// token kind cannot begin a value.
pub open spec fn spec_parse_value(s: Seq<char>, p: int) -> ParseOut
    decreases s.len() - p, 1int,
{
    if p < 0 {
        ParseOut::Fail { e: ErrModel::Eof }
    } else {
        proof {
            lemma_step_next(s, p);
        }
        match lex_step(s, p) {
            LexStep::End => ParseOut::Val {
                m: ValueModel::Prim { text: "null"@ },
                end: s.len() as int,
            },
            LexStep::BadChar { c, pos } => ParseOut::Fail { e: ErrModel::BadChar { c, pos } },
            LexStep::BadLit { text, pos } => ParseOut::Fail { e: ErrModel::BadLit { text, pos } },
            LexStep::Tok { typ, text, pos, next } => {
                if typ is String || typ is Number || typ is Literal {
                    ParseOut::Val { m: ValueModel::Prim { text }, end: next }
                } else if typ is LeftBrace {
                    spec_parse_obj(s, pos, next, Seq::empty(), false)
                } else if typ is LeftBracket {
                    spec_parse_list(s, pos, next, Seq::empty(), false)
                } else {
                    ParseOut::Fail { e: ErrModel::NoValue { found: text, pos } }
                }
            },
        }
    }
}

/// The remainder of an object whose `{` sits at offset `start`, with
/// the entries parsed so far in `acc` and the cursor at `p`. A key
/// must be a string token, a colon joins it to its value, and entries
/// are separated by commas; `}` closes the object, but not right
/// after a comma. A duplicate key keeps its first-seen position and
/// takes the later value.
///
/// The guards on `p` and on the child's end offset never bind on a
/// reachable state; they keep the recursion well-founded for every
/// integer argument.
pub open spec fn spec_parse_obj(
    s: Seq<char>,
    start: int,
    p: int,
    acc: Seq<(Seq<char>, ValueModel)>,
    after_comma: bool,
) -> ParseOut
    decreases s.len() - p, 0int,
{
    if p < 0 {
        ParseOut::Fail { e: ErrModel::Eof }
    } else {
        proof {
            lemma_step_next(s, p);
        }
        match lex_step(s, p) {
            LexStep::End => ParseOut::Fail { e: ErrModel::Eof },
            LexStep::BadChar { c, pos } => ParseOut::Fail { e: ErrModel::BadChar { c, pos } },
            LexStep::BadLit { text, pos } => ParseOut::Fail { e: ErrModel::BadLit { text, pos } },
            LexStep::Tok { typ, text, pos: kpos, next: knext } => {
                if typ is RightBrace && !after_comma {
                    ParseOut::Val {
                        m: ValueModel::Obj { span: s.subrange(start, knext), entries: acc },
                        end: knext,
                    }
                } else if !(typ is String) {
                    ParseOut::Fail { e: ErrModel::KeyNotString { found: text, pos: kpos } }
                } else {
                    proof {
                        lemma_step_next(s, knext);
                    }
                    match lex_step(s, knext) {
                        LexStep::End => ParseOut::Fail { e: ErrModel::Eof },
                        LexStep::BadChar { c, pos } => ParseOut::Fail {
                            e: ErrModel::BadChar { c, pos },
                        },
                        LexStep::BadLit { text: bt, pos } => ParseOut::Fail {
                            e: ErrModel::BadLit { text: bt, pos },
                        },
                        LexStep::Tok { typ: ctyp, text: ctext, pos: cpos, next: cnext } => {
                            if !(ctyp is Colon) {
                                ParseOut::Fail {
                                    e: ErrModel::MissingColon { found: ctext, pos: cpos },
                                }
                            } else {
                                match spec_parse_value(s, cnext) {
                                    ParseOut::Fail { e } => ParseOut::Fail { e },
                                    ParseOut::Val { m, end } => {
                                        let vp = if end < cnext {
                                            cnext
                                        } else {
                                            end
                                        };
                                        proof {
                                            lemma_step_next(s, vp);
                                        }
                                        match lex_step(s, vp) {
                                            LexStep::End => ParseOut::Fail { e: ErrModel::Eof },
                                            LexStep::BadChar { c, pos } => ParseOut::Fail {
                                                e: ErrModel::BadChar { c, pos },
                                            },
                                            LexStep::BadLit { text: bt, pos } => ParseOut::Fail {
                                                e: ErrModel::BadLit { text: bt, pos },
                                            },
                                            LexStep::Tok {
                                                typ: styp,
                                                text: stext,
                                                pos: spos,
                                                next: snext,
                                            } => {
                                                if styp is Comma {
                                                    spec_parse_obj(
                                                        s,
                                                        start,
                                                        snext,
                                                        upsert(acc, text, m),
                                                        true,
                                                    )
                                                } else if styp is RightBrace {
                                                    ParseOut::Val {
                                                        m: ValueModel::Obj {
                                                            span: s.subrange(start, snext),
                                                            entries: upsert(acc, text, m),
                                                        },
                                                        end: snext,
                                                    }
                                                } else {
                                                    ParseOut::Fail {
                                                        e: ErrModel::NoCommaOrClose {
                                                            found: stext,
                                                            pos: spos,
                                                        },
                                                    }
                                                }
                                            },
                                        }
                                    },
                                }
                            }
                        },
                    }
                }
            },
        }
    }
}

/// The remainder of a list whose `[` sits at offset `start`, with the
/// elements parsed so far in `acc` and the cursor at `p`. Elements
/// are parsed in order and separated by commas; `]` closes the list,
/// but not right after a comma.
///
/// The guards on `p` and on the child's end offset never bind on a
/// reachable state; they keep the recursion well-founded for every
/// integer argument.
pub open spec fn spec_parse_list(
    s: Seq<char>,
    start: int,
    p: int,
    acc: Seq<ValueModel>,
    after_comma: bool,
) -> ParseOut
    decreases s.len() - p, 2int,
{
    if p < 0 {
        ParseOut::Fail { e: ErrModel::Eof }
    } else {
        proof {
            lemma_step_next(s, p);
        }
        match lex_step(s, p) {
            LexStep::End => ParseOut::Fail { e: ErrModel::Eof },
            LexStep::BadChar { c, pos } => ParseOut::Fail { e: ErrModel::BadChar { c, pos } },
            LexStep::BadLit { text, pos } => ParseOut::Fail { e: ErrModel::BadLit { text, pos } },
            LexStep::Tok { typ, text, pos: tpos, next: tnext } => {
                if typ is RightBracket && !after_comma {
                    ParseOut::Val {
                        m: ValueModel::List { span: s.subrange(start, tnext), items: acc },
                        end: tnext,
                    }
                } else {
                    match spec_parse_value(s, p) {
                        ParseOut::Fail { e } => ParseOut::Fail { e },
                        ParseOut::Val { m, end } => {
                            let vp = if end < p {
                                p
                            } else {
                                end
                            };
                            proof {
                                lemma_step_next(s, vp);
                            }
                            match lex_step(s, vp) {
                                LexStep::End => ParseOut::Fail { e: ErrModel::Eof },
                                LexStep::BadChar { c, pos } => ParseOut::Fail {
                                    e: ErrModel::BadChar { c, pos },
                                },
                                LexStep::BadLit { text: bt, pos } => ParseOut::Fail {
                                    e: ErrModel::BadLit { text: bt, pos },
                                },
                                LexStep::Tok { typ: styp, text: stext, pos: spos, next: snext } => {
                                    if styp is Comma {
                                        spec_parse_list(s, start, snext, acc.push(m), true)
                                    } else if styp is RightBracket {
                                        ParseOut::Val {
                                            m: ValueModel::List {
                                                span: s.subrange(start, snext),
                                                items: acc.push(m),
                                            },
                                            end: snext,
                                        }
                                    } else {
                                        ParseOut::Fail {
                                            e: ErrModel::NoCommaOrClose {
                                                found: stext,
                                                pos: spos,
                                            },
                                        }
                                    }
                                },
                            }
                        },
                    }
                }
            },
        }
    }
}

/// A successful parse from offset `p` ends between `p` and the end of
/// the input.
pub proof fn lemma_parse_value_end(s: Seq<char>, p: int)
    requires
        0 <= p <= s.len(),
    ensures
        match spec_parse_value(s, p) {
            ParseOut::Val { m, end } => p <= end <= s.len(),
            _ => true,
        },
    decreases s.len() - p, 1int,
{
    lemma_step_next(s, p);
    match lex_step(s, p) {
        LexStep::Tok { typ, text, pos, next } => {
            if typ is LeftBrace {
                lemma_parse_obj_end(s, pos, next, Seq::empty(), false);
            } else if typ is LeftBracket {
                lemma_parse_list_end(s, pos, next, Seq::empty(), false);
            }
        },
        _ => {},
    }
}

pub(crate) proof fn lemma_parse_obj_end(
    s: Seq<char>,
    start: int,
    p: int,
    acc: Seq<(Seq<char>, ValueModel)>,
    after_comma: bool,
)
    requires
        0 <= p <= s.len(),
    ensures
        match spec_parse_obj(s, start, p, acc, after_comma) {
            ParseOut::Val { m, end } => p <= end <= s.len(),
            _ => true,
        },
    decreases s.len() - p, 0int,
{
    lemma_step_next(s, p);
    match lex_step(s, p) {
        LexStep::Tok { typ, text, pos: kpos, next: knext } => {
            if typ is String {
                lemma_step_next(s, knext);
                match lex_step(s, knext) {
                    LexStep::Tok { typ: ctyp, text: ctext, pos: cpos, next: cnext } => {
                        if ctyp is Colon {
                            lemma_parse_value_end(s, cnext);
                            match spec_parse_value(s, cnext) {
                                ParseOut::Val { m, end } => {
                                    let vp = if end < cnext {
                                        cnext
                                    } else {
                                        end
                                    };
                                    lemma_step_next(s, vp);
                                    match lex_step(s, vp) {
                                        LexStep::Tok { typ: styp, next: snext, .. } => {
                                            if styp is Comma {
                                                lemma_parse_obj_end(
                                                    s,
                                                    start,
                                                    snext,
                                                    upsert(acc, text, m),
                                                    true,
                                                );
                                            }
                                        },
                                        _ => {},
                                    }
                                },
                                _ => {},
                            }
                        }
                    },
                    _ => {},
                }
            }
        },
        _ => {},
    }
}

pub(crate) proof fn lemma_parse_list_end(
    s: Seq<char>,
    start: int,
    p: int,
    acc: Seq<ValueModel>,
    after_comma: bool,
)
    requires
        0 <= p <= s.len(),
    ensures
        match spec_parse_list(s, start, p, acc, after_comma) {
            ParseOut::Val { m, end } => p <= end <= s.len(),
            _ => true,
        },
    decreases s.len() - p, 2int,
{
    lemma_step_next(s, p);
    match lex_step(s, p) {
        LexStep::Tok { typ, text, pos: tpos, next: tnext } => {
            if !(typ is RightBracket && !after_comma) {
                lemma_parse_value_end(s, p);
                match spec_parse_value(s, p) {
                    ParseOut::Val { m, end } => {
                        let vp = if end < p {
                            p
                        } else {
                            end
                        };
                        lemma_step_next(s, vp);
                        match lex_step(s, vp) {
                            LexStep::Tok { typ: styp, next: snext, .. } => {
                                if styp is Comma {
                                    lemma_parse_list_end(s, start, snext, acc.push(m), true);
                                }
                            },
                            _ => {},
                        }
                    },
                    _ => {},
                }
            }
        },
        _ => {},
    }
}

/// The error that aborts a parse: a lexical fault carried through, or
/// a structural fault of the document. Each structural shape borrows
/// the text of the offending token and carries the 1-based line and
/// column of its position; `UnexpectedEnd` reports an input that ends
/// inside a composite.
#[derive(Debug, Clone, Copy, PartialEq)]
pub enum ParseError<'a> {
    Lex(LexError<'a>),
    NonStringKey { found: &'a str, row: usize, col: usize },
    ExpectedColon { found: &'a str, row: usize, col: usize },
    ExpectedValue { found: &'a str, row: usize, col: usize },
    ExpectedCommaOrClose { found: &'a str, row: usize, col: usize },
    UnexpectedEnd,
}

/// Whether the error value `pe` reports exactly the fault `e`, with
/// the line and column of its offset in `s`.
pub open spec fn err_matches(pe: ParseError, s: Seq<char>, e: ErrModel) -> bool {
    match e {
        ErrModel::BadChar { c, pos } => pe matches ParseError::Lex(
            LexError::InvalidChar { ch, row, col },
        ) && ch == c && row as int == row_at(s, pos) && col as int == col_at(s, pos),
        ErrModel::BadLit { text, pos } => pe matches ParseError::Lex(
            LexError::InvalidLiteral { text: t, row, col },
        ) && t@ == text && row as int == row_at(s, pos) && col as int == col_at(s, pos),
        ErrModel::KeyNotString { found, pos } => pe matches ParseError::NonStringKey {
            found: f,
            row,
            col,
        } && f@ == found && row as int == row_at(s, pos) && col as int == col_at(s, pos),
        ErrModel::MissingColon { found, pos } => pe matches ParseError::ExpectedColon {
            found: f,
            row,
            col,
        } && f@ == found && row as int == row_at(s, pos) && col as int == col_at(s, pos),
        ErrModel::NoValue { found, pos } => pe matches ParseError::ExpectedValue {
            found: f,
            row,
            col,
        } && f@ == found && row as int == row_at(s, pos) && col as int == col_at(s, pos),
        ErrModel::NoCommaOrClose { found, pos } => pe matches ParseError::ExpectedCommaOrClose {
            found: f,
            row,
            col,
        } && f@ == found && row as int == row_at(s, pos) && col as int == col_at(s, pos),
        ErrModel::Eof => pe is UnexpectedEnd,
    }
}

/// Pulls tokens from the [`Lexer`] and assembles a [`Value`] tree by
/// recursive descent, holding the current token as one token of
/// lookahead.
pub struct Parser<'a> {
    lexer: Lexer<'a>,
    curr: Option<Token<'a>>,
    fetched_at: Ghost<int>,
}

impl<'a> Parser<'a> {
    /// The input text.
    pub closed spec fn src(self) -> Seq<char> {
        self.lexer.input@
    }

    /// The offset from which the buffered lookahead token was pulled.
    pub closed spec fn cursor(self) -> int {
        self.fetched_at@
    }

    /// The lexer's cursor offset: just past the lookahead token.
    pub closed spec fn lex_pos(self) -> int {
        self.lexer.pos as int
    }

    /// The buffered token is exactly what one lexing step from
    /// `cursor()` yields, and the lexer stands just past it.
    pub closed spec fn wf(self) -> bool {
        &&& self.lexer.wf()
        &&& 0 <= self.fetched_at@ <= self.src().len()
        &&& match self.curr {
            Some(t) => match lex_step(self.src(), self.fetched_at@) {
                LexStep::Tok { typ, text, pos, next } => {
                    &&& t.typ == typ
                    &&& t.val@ == text
                    &&& t.row as int == row_at(self.src(), pos)
                    &&& t.col as int == col_at(self.src(), pos)
                    &&& self.lexer.pos as int == next
                },
                _ => false,
            },
            None => lex_step(self.src(), self.fetched_at@) is End && self.lexer.pos
                == self.src().len(),
        }
    }

    /// A parser over `input` with the first token already buffered;
    /// a lexical fault in that very first token is returned at once.
    /// The input must hold fewer than `usize::MAX` characters, so
    /// that the lexer's position counters always fit.
    pub fn new(input: &'a str) -> (r: Result<Parser<'a>, LexError<'a>>)
        requires
            input@.len() < usize::MAX,
        ensures
            match r {
                Ok(q) => q.wf() && q.src() == input@ && q.cursor() == 0,
                Err(e) => !(lex_step(input@, 0) is Tok) && !(lex_step(input@, 0) is End)
                    && lex_error_matches(e, input@, lex_step(input@, 0)),
            },
    {
        let mut lexer = Lexer::new(input);
        match lexer.next() {
            Ok(curr) => Ok(Parser { lexer, curr, fetched_at: Ghost(0int) }),
            Err(e) => Err(e),
        }
    }

    /// Refills the lookahead with the next token.
    fn next_token(&mut self) -> (r: Result<(), LexError<'a>>)
        requires
            old(self).lexer.wf(),
        ensures
            final(self).src() == old(self).src(),
            match r {
                Ok(()) => {
                    &&& final(self).wf()
                    &&& final(self).cursor() == old(self).lexer.pos as int
                    &&& !(lex_step(old(self).src(), old(self).lexer.pos as int) is BadChar)
                    &&& !(lex_step(old(self).src(), old(self).lexer.pos as int) is BadLit)
                },
                Err(e) => {
                    &&& !(lex_step(old(self).src(), old(self).lexer.pos as int) is Tok)
                    &&& !(lex_step(old(self).src(), old(self).lexer.pos as int) is End)
                    &&& lex_error_matches(
                        e,
                        old(self).src(),
                        lex_step(old(self).src(), old(self).lexer.pos as int),
                    )
                },
            },
    {
        let ghost p = self.lexer.pos as int;
        match self.lexer.next() {
            Ok(t) => {
                self.curr = t;
                self.fetched_at = Ghost(p);
                Ok(())
            },
            Err(e) => Err(e),
        }
    }

    /// Parses one value: a primitive token yields a `Primitive` with
    /// that token's text, `{` an object, `[` a list, and an exhausted
    /// input the `null` primitive. On return the lookahead holds the
    /// value's last token. The result, success or error, is exactly
    /// what `spec_parse_value` says for the buffered position.
    pub fn parse(&mut self) -> (r: Result<Value<'a>, ParseError<'a>>)
        requires
            old(self).wf(),
        ensures
            match spec_parse_value(old(self).src(), old(self).cursor()) {
                ParseOut::Val { m, end } => r matches Ok(v) && model_of(v) == m
                    && final(self).wf() && final(self).src() == old(self).src()
                    && final(self).lex_pos() == end,
                ParseOut::Fail { e } => r matches Err(pe) && err_matches(pe, old(self).src(), e),
            },
        decreases old(self).src().len() - old(self).cursor(), 1int,
    {
        match self.curr {
            None => Ok(Value::Primitive("null")),
            Some(t) => match t.typ {
                TokenType::String => Ok(Value::Primitive(t.val)),
                TokenType::Number => Ok(Value::Primitive(t.val)),
                TokenType::Literal => Ok(Value::Primitive(t.val)),
                TokenType::LeftBrace => self.parse_obj(),
                TokenType::LeftBracket => self.parse_list(),
                _ => Err(ParseError::ExpectedValue { found: t.val, row: t.row, col: t.col }),
            },
        }
    }

    /// Parses the object whose `{` is the buffered token.
    #[verifier::loop_isolation(false)]
    fn parse_obj(&mut self) -> (r: Result<Value<'a>, ParseError<'a>>)
        requires
            old(self).wf(),
            old(self).curr matches Some(t) && t.typ == TokenType::LeftBrace,
        ensures
            match spec_parse_obj(
                old(self).src(),
                step_pos(old(self).src(), old(self).cursor()),
                step_next(old(self).src(), old(self).cursor()),
                Seq::empty(),
                false,
            ) {
                ParseOut::Val { m, end } => r matches Ok(v) && model_of(v) == m
                    && final(self).wf() && final(self).src() == old(self).src()
                    && final(self).lex_pos() == end,
                ParseOut::Fail { e } => r matches Err(pe) && err_matches(pe, old(self).src(), e),
            },
        decreases old(self).src().len() - old(self).cursor(), 0int,
    {
        let ghost s = self.src();
        let ghost p0 = self.cursor();
        let ghost start = step_pos(s, p0);
        let ghost bnext = step_next(s, p0);
        proof {
            lemma_step_next(s, p0);
        }

        let start_pos = self.lexer.pos - 1;
        let mut map: Vec<(&'a str, Value<'a>)> = Vec::new();

        match self.next_token() {
            Err(e) => return Err(ParseError::Lex(e)),
            Ok(()) => {},
        }
        match self.curr {
            None => {
                return Err(ParseError::UnexpectedEnd);
            },
            Some(t0) => {
                if t0.typ == TokenType::RightBrace {
                    proof {
                        lemma_step_next(s, bnext);
                    }
                    let slice = self.lexer.input.substring_char(start_pos, self.lexer.pos);
                    return Ok(Value::Obj { slice, map });
                }
            },
        }
        proof {
            assert(entries_model(map@) =~= Seq::<(Seq<char>, ValueModel)>::empty());
        }
        loop
            invariant
                self.wf(),
                self.src() == s,
                self.cursor() >= bnext,
                start_pos as int == start,
                spec_parse_obj(s, start, bnext, Seq::empty(), false) == spec_parse_obj(
                    s,
                    start,
                    self.cursor(),
                    entries_model(map@),
                    true,
                ),
            decreases s.len() - self.cursor(),
        {
            let ghost pk = self.cursor();
            proof {
                lemma_step_next(s, pk);
                reveal_with_fuel(spec_parse_obj, 3);
                reveal_with_fuel(spec_parse_value, 2);
            }
            let t = match self.curr {
                Some(t) => t,
                None => {
                    return Err(ParseError::UnexpectedEnd);
                },
            };
            if t.typ != TokenType::String {
                return Err(ParseError::NonStringKey { found: t.val, row: t.row, col: t.col });
            }
            let key = t.val;
            match self.next_token() {
                Err(e) => return Err(ParseError::Lex(e)),
                Ok(()) => {},
            }
            let ghost pc = self.cursor();
            proof {
                lemma_step_next(s, pc);
            }
            let c = match self.curr {
                Some(c) => c,
                None => {
                    return Err(ParseError::UnexpectedEnd);
                },
            };
            if c.typ != TokenType::Colon {
                return Err(ParseError::ExpectedColon { found: c.val, row: c.row, col: c.col });
            }
            match self.next_token() {
                Err(e) => return Err(ParseError::Lex(e)),
                Ok(()) => {},
            }
            let ghost pv = self.cursor();
            let value = match self.parse() {
                Ok(v) => v,
                Err(e) => return Err(e),
            };
            proof {
                lemma_parse_value_end(s, pv);
            }
            insert_entry(&mut map, key, value);
            match self.next_token() {
                Err(e) => return Err(ParseError::Lex(e)),
                Ok(()) => {},
            }
            let ghost ps = self.cursor();
            proof {
                lemma_step_next(s, ps);
            }
            let t2 = match self.curr {
                Some(t2) => t2,
                None => {
                    return Err(ParseError::UnexpectedEnd);
                },
            };
            if t2.typ == TokenType::Comma {
                match self.next_token() {
                    Err(e) => return Err(ParseError::Lex(e)),
                    Ok(()) => {},
                }
            } else if t2.typ == TokenType::RightBrace {
                let slice = self.lexer.input.substring_char(start_pos, self.lexer.pos);
                return Ok(Value::Obj { slice, map });
            } else {
                return Err(ParseError::ExpectedCommaOrClose {
                    found: t2.val,
                    row: t2.row,
                    col: t2.col,
                });
            }
        }
    }

    /// Parses the list whose `[` is the buffered token.
    #[verifier::loop_isolation(false)]
    fn parse_list(&mut self) -> (r: Result<Value<'a>, ParseError<'a>>)
        requires
            old(self).wf(),
            old(self).curr matches Some(t) && t.typ == TokenType::LeftBracket,
        ensures
            match spec_parse_list(
                old(self).src(),
                step_pos(old(self).src(), old(self).cursor()),
                step_next(old(self).src(), old(self).cursor()),
                Seq::empty(),
                false,
            ) {
                ParseOut::Val { m, end } => r matches Ok(v) && model_of(v) == m
                    && final(self).wf() && final(self).src() == old(self).src()
                    && final(self).lex_pos() == end,
                ParseOut::Fail { e } => r matches Err(pe) && err_matches(pe, old(self).src(), e),
            },
        decreases old(self).src().len() - old(self).cursor(), 0int,
    {
        let ghost s = self.src();
        let ghost p0 = self.cursor();
        let ghost start = step_pos(s, p0);
        let ghost bnext = step_next(s, p0);
        proof {
            lemma_step_next(s, p0);
        }

        let start_pos = self.lexer.pos - 1;
        let mut items: Vec<Value<'a>> = Vec::new();

        match self.next_token() {
            Err(e) => return Err(ParseError::Lex(e)),
            Ok(()) => {},
        }
        match self.curr {
            None => {
                return Err(ParseError::UnexpectedEnd);
            },
            Some(t0) => {
                if t0.typ == TokenType::RightBracket {
                    proof {
                        lemma_step_next(s, bnext);
                    }
                    let slice = self.lexer.input.substring_char(start_pos, self.lexer.pos);
                    return Ok(Value::List { slice, items });
                }
            },
        }
        proof {
            assert(models_of(items@) =~= Seq::<ValueModel>::empty());
        }
        loop
            invariant
                self.wf(),
                self.src() == s,
                self.cursor() >= bnext,
                start_pos as int == start,
                spec_parse_list(s, start, bnext, Seq::empty(), false) == spec_parse_list(
                    s,
                    start,
                    self.cursor(),
                    models_of(items@),
                    true,
                ),
            decreases s.len() - self.cursor(),
        {
            let ghost pv = self.cursor();
            proof {
                lemma_step_next(s, pv);
                reveal_with_fuel(spec_parse_list, 3);
                reveal_with_fuel(spec_parse_value, 2);
            }
            let value = match self.parse() {
                Ok(v) => v,
                Err(e) => return Err(e),
            };
            proof {
                lemma_parse_value_end(s, pv);
            }
            let ghost items0 = items@;
            items.push(value);
            proof {
                assert(items@.drop_last() =~= items0);
            }
            match self.next_token() {
                Err(e) => return Err(ParseError::Lex(e)),
                Ok(()) => {},
            }
            let ghost ps = self.cursor();
            proof {
                lemma_step_next(s, ps);
            }
            let t2 = match self.curr {
                Some(t2) => t2,
                None => {
                    return Err(ParseError::UnexpectedEnd);
                },
            };
            if t2.typ == TokenType::Comma {
                match self.next_token() {
                    Err(e) => return Err(ParseError::Lex(e)),
                    Ok(()) => {},
                }
            } else if t2.typ == TokenType::RightBracket {
                let slice = self.lexer.input.substring_char(start_pos, self.lexer.pos);
                return Ok(Value::List { slice, items });
            } else {
                return Err(ParseError::ExpectedCommaOrClose {
                    found: t2.val,
                    row: t2.row,
                    col: t2.col,
                });
            }
        }
    }
}

} // verus!
