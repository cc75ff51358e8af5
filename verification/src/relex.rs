//! Re-lexing the stored spans.
//!
//! A composite value's span is itself a lexable text: running the
//! lexer over it from its first character reproduces a token stream
//! that opens with the span's own delimiter and closes with the
//! matching one. `token_kinds` is the stream of token kinds a text
//! yields; the laws at the end state the round trip for objects and
//! lists.

use vstd::prelude::*;

use crate::lexer::lex_step;
use crate::lexer::lemma_step_next;
use crate::lexer::symbol_kind;
use crate::lexer::LexStep;
use crate::text::alpha_run_end;
use crate::text::digit_run_end;
use crate::text::is_alpha_char;
use crate::text::is_digit_char;
use crate::text::is_ws_char;
use crate::text::lemma_alpha_run_end;
use crate::text::lemma_digit_run_end;
use crate::text::lemma_str_body_end;
use crate::text::lemma_ws_end;
use crate::text::starts_literal;
use crate::text::str_body_end;
use crate::text::ws_end;
use crate::token::TokenType;
use crate::parser::lemma_parse_list_end;
use crate::parser::lemma_parse_obj_end;
use crate::parser::lemma_parse_value_end;
use crate::parser::spec_parse_list;
use crate::parser::spec_parse_obj;
use crate::parser::spec_parse_value;
use crate::parser::ParseOut;
use crate::value::upsert;
use crate::value::ValueModel;

verus! {

/// The kinds of the tokens that lexing `s` from offset `p` yields, or
/// `None` if a lexical fault is met before the end of the input.
/// Every token consumes ground, so the progress guard below never
/// binds; it keeps the recursion well-founded for every argument.
pub open spec fn token_kinds(s: Seq<char>, p: int) -> Option<Seq<TokenType>>
    decreases s.len() - p,
{
    if p < 0 {
        None
    } else {
        proof {
            lemma_step_next(s, p);
        }
        match lex_step(s, p) {
            LexStep::End => Some(Seq::empty()),
            LexStep::Tok { typ, text, pos, next } => if next > p {
                match token_kinds(s, next) {
                    Some(ts) => Some(seq![typ] + ts),
                    None => None,
                }
            } else {
                None
            },
            _ => None,
        }
    }
}

/// The kinds of the tokens that lexing `s` from offset `p` yields
/// while the tokens tile the window up to exactly `b`: each token
/// begins before `b`, consumes ground, and ends at or before `b`, and
/// the last one ends exactly at `b`.
pub open spec fn kinds_until(s: Seq<char>, p: int, b: int) -> Option<Seq<TokenType>>
    decreases b - p,
{
    if p >= b {
        if p == b {
            Some(Seq::empty())
        } else {
            None
        }
    } else {
        match lex_step(s, p) {
            LexStep::Tok { typ, text, pos, next } => if ws_end(s, p) < b && p < next && next
                <= b {
                match kinds_until(s, next, b) {
                    Some(ts) => Some(seq![typ] + ts),
                    None => None,
                }
            } else {
                None
            },
            _ => None,
        }
    }
}

proof fn lemma_ws_end_shift(s: Seq<char>, a: int, b: int, i: int)
    requires
        0 <= a <= i <= b <= s.len(),
        ws_end(s, i) <= b,
    ensures
        ws_end(s.subrange(a, b), i - a) == ws_end(s, i) - a,
    decreases b - i,
{
    lemma_ws_end(s, i);
    if i < b && is_ws_char(s[i]) {
        lemma_ws_end_shift(s, a, b, i + 1);
    }
}

proof fn lemma_digit_run_shift(s: Seq<char>, a: int, b: int, i: int)
    requires
        0 <= a <= i <= b <= s.len(),
        digit_run_end(s, i) <= b,
    ensures
        digit_run_end(s.subrange(a, b), i - a) == digit_run_end(s, i) - a,
    decreases b - i,
{
    lemma_digit_run_end(s, i);
    if i < b && is_digit_char(s[i]) {
        lemma_digit_run_shift(s, a, b, i + 1);
    }
}

proof fn lemma_alpha_run_shift(s: Seq<char>, a: int, b: int, i: int)
    requires
        0 <= a <= i <= b <= s.len(),
        alpha_run_end(s, i) <= b,
    ensures
        alpha_run_end(s.subrange(a, b), i - a) == alpha_run_end(s, i) - a,
    decreases b - i,
{
    lemma_alpha_run_end(s, i);
    if i < b && is_alpha_char(s[i]) {
        lemma_alpha_run_shift(s, a, b, i + 1);
    }
}

proof fn lemma_str_body_shift(s: Seq<char>, a: int, b: int, i: int)
    requires
        0 <= a <= i <= b <= s.len(),
        str_body_end(s, i) <= b,
    ensures
        str_body_end(s.subrange(a, b), i - a) == str_body_end(s, i) - a,
    decreases b - i,
{
    lemma_str_body_end(s, i);
    if i < b && !(s[i] == '"' || is_ws_char(s[i])) {
        lemma_str_body_shift(s, a, b, i + 1);
    }
}

/// A token that begins and ends inside the window `[a, b)..=b` lexes
/// to the same kind at the shifted offset of the window's text.
proof fn lemma_step_shift(s: Seq<char>, a: int, b: int, p: int)
    requires
        0 <= a <= p <= b <= s.len(),
    ensures
        match lex_step(s, p) {
            LexStep::Tok { typ, text, pos, next } => (ws_end(s, p) < b && next <= b)
                ==> match lex_step(s.subrange(a, b), p - a) {
                LexStep::Tok { typ: t2, text: x2, pos: p2, next: n2 } => t2 == typ && n2 == next
                    - a,
                _ => false,
            },
            _ => true,
        },
{
    let sub = s.subrange(a, b);
    lemma_ws_end(s, p);
    match lex_step(s, p) {
        LexStep::Tok { typ, text, pos, next } => {
            if ws_end(s, p) < b && next <= b {
                let i = ws_end(s, p);
                lemma_ws_end_shift(s, a, b, p);
                assert(sub[i - a] == s[i]);
                let c = s[i];
                if symbol_kind(c) is Some {
                } else if starts_literal(c) {
                    lemma_alpha_run_end(s, i);
                    lemma_alpha_run_shift(s, a, b, i);
                    assert(sub.subrange(i - a, alpha_run_end(s, i) - a) =~= s.subrange(
                        i,
                        alpha_run_end(s, i),
                    ));
                } else if c == '"' {
                    lemma_str_body_end(s, i + 1);
                    let j = str_body_end(s, i + 1);
                    lemma_str_body_shift(s, a, b, i + 1);
                    if j < b {
                        assert(next == j + 1);
                    } else {
                        assert(j == b && next == j && b == s.len());
                    }
                } else if is_digit_char(c) {
                    lemma_digit_run_end(s, i);
                    lemma_digit_run_shift(s, a, b, i);
                }
            }
        },
        _ => {},
    }
}

/// A token stream that tiles a window relocates verbatim into the
/// window's own text.
proof fn lemma_kinds_shift(s: Seq<char>, a: int, b: int, p: int)
    requires
        0 <= a <= p <= b <= s.len(),
    ensures
        match kinds_until(s, p, b) {
            Some(ts) => token_kinds(s.subrange(a, b), p - a) == Some(ts),
            None => true,
        },
    decreases b - p,
{
    let sub = s.subrange(a, b);
    match kinds_until(s, p, b) {
        Some(ts) => {
            if p == b {
                lemma_ws_end(sub, p - a);
                assert(ws_end(sub, p - a) == sub.len());
            } else {
                match lex_step(s, p) {
                    LexStep::Tok { typ, text, pos, next } => {
                        lemma_step_shift(s, a, b, p);
                        lemma_kinds_shift(s, a, b, next);
                    },
                    _ => {},
                }
            }
        },
        None => {},
    }
}

/// Two adjacent tiled streams concatenate.
proof fn lemma_kinds_concat(s: Seq<char>, p: int, q: int, b: int)
    requires
        p <= q <= b,
    ensures
        match (kinds_until(s, p, q), kinds_until(s, q, b)) {
            (Some(ts1), Some(ts2)) => kinds_until(s, p, b) == Some(ts1 + ts2),
            _ => true,
        },
    decreases q - p,
{
    match (kinds_until(s, p, q), kinds_until(s, q, b)) {
        (Some(ts1), Some(ts2)) => {
            if p == q {
                assert(Seq::<TokenType>::empty() + ts2 =~= ts2);
            } else {
                match lex_step(s, p) {
                    LexStep::Tok { typ, text, pos, next } => {
                        lemma_kinds_concat(s, next, q, b);
                        match kinds_until(s, next, q) {
                            Some(rest1) => {
                                assert(seq![typ] + (rest1 + ts2) =~= (seq![typ] + rest1) + ts2);
                            },
                            None => {},
                        }
                    },
                    _ => {},
                }
            }
        },
        _ => {},
    }
}

/// A parsed value ends at or after the first character of its first
/// token; when it ends exactly there, the lexer sees the same token
/// at the value's end as at its start.
proof fn lemma_value_end_past_token(s: Seq<char>, p: int)
    requires
        0 <= p <= s.len(),
    ensures
        match spec_parse_value(s, p) {
            ParseOut::Val { m, end } => end >= ws_end(s, p) && (end == ws_end(s, p)
                ==> lex_step(s, end) == lex_step(s, p)),
            _ => true,
        },
{
    lemma_ws_end(s, p);
    lemma_step_next(s, p);
    match lex_step(s, p) {
        LexStep::End => {
        },
        LexStep::Tok { typ, text, pos, next } => {
            if typ is LeftBrace {
                lemma_parse_obj_end(s, pos, next, Seq::empty(), false);
            } else if typ is LeftBracket {
                lemma_parse_list_end(s, pos, next, Seq::empty(), false);
            }
        },
        _ => {},
    }
}

/// The token stream of a parsed value's extent: non-empty, opening
/// and closing with the value's own delimiters when it is composite.
proof fn lemma_value_stream(s: Seq<char>, p: int)
    requires
        0 <= p <= s.len(),
    ensures
        match spec_parse_value(s, p) {
            ParseOut::Val { m, end } => end > ws_end(s, p) ==> match kinds_until(s, p, end) {
                Some(ts) => {
                    &&& ts.len() >= 1
                    &&& (m is Obj ==> ts[0] == TokenType::LeftBrace && ts.last()
                        == TokenType::RightBrace)
                    &&& (m is List ==> ts[0] == TokenType::LeftBracket && ts.last()
                        == TokenType::RightBracket)
                },
                None => false,
            },
            _ => true,
        },
    decreases s.len() - p, 1int,
{
    lemma_ws_end(s, p);
    lemma_step_next(s, p);
    match lex_step(s, p) {
        LexStep::Tok { typ, text, pos, next } => {
            if typ is String || typ is Number || typ is Literal {
                match spec_parse_value(s, p) {
                    ParseOut::Val { m, end } => {
                        if end > ws_end(s, p) {
                            assert(kinds_until(s, next, end) == Some(Seq::<TokenType>::empty()));
                            assert(kinds_until(s, p, end) == Some(
                                seq![typ] + Seq::<TokenType>::empty(),
                            ));
                        }
                    },
                    _ => {},
                }
            } else if typ is LeftBrace {
                lemma_parse_obj_end(s, pos, next, Seq::empty(), false);
                lemma_obj_stream(s, pos, next, Seq::empty(), false);
                crate::laws::lemma_obj_shape(s, pos, next, Seq::empty(), false);
                match spec_parse_obj(s, pos, next, Seq::empty(), false) {
                    ParseOut::Val { m, end } => {
                        let ts_o = kinds_until(s, next, end)->Some_0;
                        assert(end >= next);
                        assert(kinds_until(s, p, end) == Some(seq![typ] + ts_o));
                        assert((seq![typ] + ts_o)[0] == typ);
                        assert((seq![typ] + ts_o).last() == ts_o.last());
                    },
                    _ => {},
                }
            } else if typ is LeftBracket {
                lemma_parse_list_end(s, pos, next, Seq::empty(), false);
                lemma_list_stream(s, pos, next, Seq::empty(), false);
                crate::laws::lemma_list_shape(s, pos, next, Seq::empty(), false);
                match spec_parse_list(s, pos, next, Seq::empty(), false) {
                    ParseOut::Val { m, end } => {
                        let ts_o = kinds_until(s, next, end)->Some_0;
                        assert(end >= next);
                        assert(kinds_until(s, p, end) == Some(seq![typ] + ts_o));
                        assert((seq![typ] + ts_o)[0] == typ);
                        assert((seq![typ] + ts_o).last() == ts_o.last());
                    },
                    _ => {},
                }
            }
        },
        _ => {},
    }
}

/// The token stream of the remainder of an object: it tiles the text
/// up to the object's end and closes with `}`.
proof fn lemma_obj_stream(
    s: Seq<char>,
    start: int,
    p: int,
    acc: Seq<(Seq<char>, ValueModel)>,
    after_comma: bool,
)
    requires
        0 <= p <= s.len(),
    ensures
        match spec_parse_obj(s, start, p, acc, after_comma) {
            ParseOut::Val { m, end } => match kinds_until(s, p, end) {
                Some(ts) => ts.len() >= 1 && ts.last() == TokenType::RightBrace,
                None => false,
            },
            _ => true,
        },
    decreases s.len() - p, 0int,
{
    lemma_ws_end(s, p);
    lemma_step_next(s, p);
    match lex_step(s, p) {
        LexStep::Tok { typ, text, pos: kpos, next: knext } => {
            if typ is RightBrace && !after_comma {
                assert(kinds_until(s, knext, knext) == Some(Seq::<TokenType>::empty()));
            } else if typ is String {
                lemma_ws_end(s, knext);
                lemma_step_next(s, knext);
                match lex_step(s, knext) {
                    LexStep::Tok { typ: ctyp, text: ctext, pos: cpos, next: cnext } => {
                        if ctyp is Colon {
                            lemma_parse_value_end(s, cnext);
                            lemma_value_end_past_token(s, cnext);
                            lemma_value_stream(s, cnext);
                            match spec_parse_value(s, cnext) {
                                ParseOut::Val { m, end } => {
                                    let vp = if end < cnext {
                                        cnext
                                    } else {
                                        end
                                    };
                                    lemma_ws_end(s, vp);
                                    lemma_step_next(s, vp);
                                    match lex_step(s, vp) {
                                        LexStep::Tok {
                                            typ: styp,
                                            text: stext,
                                            pos: spos,
                                            next: snext,
                                        } => {
                                            if styp is Comma || styp is RightBrace {
                                                // the child value ends past its first token,
                                                // else the separator lex would not see a
                                                // comma or closing brace
                                                assert(end > ws_end(s, cnext));
                                                let ts_v = kinds_until(s, cnext, end)->Some_0;
                                                if styp is Comma {
                                                    lemma_obj_stream(
                                                        s,
                                                        start,
                                                        snext,
                                                        upsert(acc, text, m),
                                                        true,
                                                    );
                                                    match spec_parse_obj(
                                                        s,
                                                        start,
                                                        snext,
                                                        upsert(acc, text, m),
                                                        true,
                                                    ) {
                                                        ParseOut::Val { m: m2, end: end2 } => {
                                                            let ts_r = kinds_until(
                                                                s,
                                                                snext,
                                                                end2,
                                                            )->Some_0;
                                                            assert(kinds_until(s, vp, end2)
                                                                == Some(seq![TokenType::Comma]
                                                                + ts_r));
                                                            lemma_kinds_concat(s, cnext, vp, end2);
                                                            assert(kinds_until(s, cnext, end2)
                                                                == Some(
                                                                ts_v + (seq![TokenType::Comma]
                                                                    + ts_r),
                                                            ));
                                                            assert(kinds_until(s, knext, end2)
                                                                == Some(seq![TokenType::Colon] + (
                                                                ts_v + (seq![TokenType::Comma]
                                                                    + ts_r)
                                                            )));
                                                            assert(kinds_until(s, p, end2)
                                                                == Some(seq![TokenType::String] + (
                                                                seq![TokenType::Colon] + (ts_v + (
                                                                seq![TokenType::Comma] + ts_r
                                                                ))
                                                            )));
                                                            let whole = seq![TokenType::String] + (
                                                            seq![TokenType::Colon] + (ts_v + (
                                                            seq![TokenType::Comma] + ts_r
                                                            )));
                                                            assert(ts_r.len() >= 1);
                                                            assert(whole.last() == ts_r.last());
                                                        },
                                                        _ => {},
                                                    }
                                                } else {
                                                    // closing brace: its token ends the stream
                                                    assert(kinds_until(s, snext, snext) == Some(
                                                        Seq::<TokenType>::empty(),
                                                    ));
                                                    assert(kinds_until(s, vp, snext) == Some(
                                                        seq![TokenType::RightBrace],
                                                    ));
                                                    lemma_kinds_concat(s, cnext, vp, snext);
                                                    assert(kinds_until(s, cnext, snext) == Some(
                                                        ts_v + seq![TokenType::RightBrace],
                                                    ));
                                                    assert(kinds_until(s, knext, snext) == Some(
                                                        seq![TokenType::Colon] + (ts_v
                                                            + seq![TokenType::RightBrace]),
                                                    ));
                                                    assert(kinds_until(s, p, snext) == Some(
                                                        seq![TokenType::String] + (
                                                        seq![TokenType::Colon] + (ts_v
                                                            + seq![TokenType::RightBrace])
                                                        ),
                                                    ));
                                                    let whole = seq![TokenType::String] + (
                                                    seq![TokenType::Colon] + (ts_v
                                                        + seq![TokenType::RightBrace]));
                                                    assert(whole.last() == TokenType::RightBrace);
                                                }
                                            }
                                        },
                                        _ => {},
                                    }
                                },
                                _ => {},
                            }
                        }
                    },
                    _ => {},
                }
            }
        },
        _ => {},
    }
}

/// The token stream of the remainder of a list: it tiles the text up
/// to the list's end and closes with `]`.
proof fn lemma_list_stream(
    s: Seq<char>,
    start: int,
    p: int,
    acc: Seq<ValueModel>,
    after_comma: bool,
)
    requires
        0 <= p <= s.len(),
    ensures
        match spec_parse_list(s, start, p, acc, after_comma) {
            ParseOut::Val { m, end } => match kinds_until(s, p, end) {
                Some(ts) => ts.len() >= 1 && ts.last() == TokenType::RightBracket,
                None => false,
            },
            _ => true,
        },
    decreases s.len() - p, 2int,
{
    lemma_ws_end(s, p);
    lemma_step_next(s, p);
    match lex_step(s, p) {
        LexStep::Tok { typ, text, pos: tpos, next: tnext } => {
            if typ is RightBracket && !after_comma {
                assert(kinds_until(s, tnext, tnext) == Some(Seq::<TokenType>::empty()));
            } else {
                lemma_parse_value_end(s, p);
                lemma_value_end_past_token(s, p);
                lemma_value_stream(s, p);
                match spec_parse_value(s, p) {
                    ParseOut::Val { m, end } => {
                        let vp = if end < p {
                            p
                        } else {
                            end
                        };
                        lemma_ws_end(s, vp);
                        lemma_step_next(s, vp);
                        match lex_step(s, vp) {
                            LexStep::Tok { typ: styp, text: stext, pos: spos, next: snext } => {
                                if styp is Comma || styp is RightBracket {
                                    assert(end > ws_end(s, p));
                                    let ts_v = kinds_until(s, p, end)->Some_0;
                                    if styp is Comma {
                                        lemma_list_stream(s, start, snext, acc.push(m), true);
                                        match spec_parse_list(s, start, snext, acc.push(m), true) {
                                            ParseOut::Val { m: m2, end: end2 } => {
                                                let ts_r = kinds_until(s, snext, end2)->Some_0;
                                                assert(kinds_until(s, vp, end2) == Some(
                                                    seq![TokenType::Comma] + ts_r,
                                                ));
                                                lemma_kinds_concat(s, p, vp, end2);
                                                let whole = ts_v + (seq![TokenType::Comma] + ts_r);
                                                assert(kinds_until(s, p, end2) == Some(whole));
                                                assert(ts_r.len() >= 1);
                                                assert(whole.last() == ts_r.last());
                                            },
                                            _ => {},
                                        }
                                    } else {
                                        assert(kinds_until(s, snext, snext) == Some(
                                            Seq::<TokenType>::empty(),
                                        ));
                                        assert(kinds_until(s, vp, snext) == Some(
                                            seq![TokenType::RightBracket],
                                        ));
                                        lemma_kinds_concat(s, p, vp, snext);
                                        let whole = ts_v + seq![TokenType::RightBracket];
                                        assert(kinds_until(s, p, snext) == Some(whole));
                                        assert(whole.last() == TokenType::RightBracket);
                                    }
                                }
                            },
                            _ => {},
                        }
                    },
                    _ => {},
                }
            }
        },
        _ => {},
    }
}

/// Law (re-lexing an object span): lexing the stored span of a parsed
/// object from its first character reproduces a token stream whose
/// first token is `{` and whose last token is the matching `}`.
pub proof fn lemma_relex_object_span(s: Seq<char>, p: int)
    requires
        0 <= p <= s.len(),
    ensures
        match spec_parse_value(s, p) {
            ParseOut::Val { m: ValueModel::Obj { span, entries }, end } => match token_kinds(
                span,
                0,
            ) {
                Some(ts) => ts.len() >= 2 && ts[0] == TokenType::LeftBrace && ts.last()
                    == TokenType::RightBrace,
                None => false,
            },
            _ => true,
        },
{
    lemma_ws_end(s, p);
    lemma_step_next(s, p);
    lemma_parse_value_end(s, p);
    lemma_value_end_past_token(s, p);
    lemma_value_stream(s, p);
    match spec_parse_value(s, p) {
        ParseOut::Val { m: ValueModel::Obj { span, entries }, end } => {
            match lex_step(s, p) {
                LexStep::Tok { typ, text, pos, next } => {
                    crate::laws::lemma_obj_shape(s, pos, next, Seq::empty(), false);
                    crate::laws::lemma_list_shape(s, pos, next, Seq::empty(), false);
                    assert(typ is LeftBrace);
                    lemma_parse_obj_end(s, pos, next, Seq::empty(), false);
                    lemma_obj_stream(s, pos, next, Seq::empty(), false);
                    assert(end >= next);
                    assert(span == s.subrange(pos, end));
                    // the span's own stream starts on the `{` itself
                    assert(ws_end(s, pos) == pos);
                    assert(lex_step(s, pos) == lex_step(s, p));
                    let ts_o = kinds_until(s, next, end)->Some_0;
                    assert(kinds_until(s, pos, end) == Some(seq![TokenType::LeftBrace] + ts_o));
                    lemma_kinds_shift(s, pos, end, pos);
                    assert(token_kinds(span, 0) == Some(seq![TokenType::LeftBrace] + ts_o));
                    lemma_obj_stream(s, pos, next, Seq::empty(), false);
                    assert(ts_o.len() >= 1 && ts_o.last() == TokenType::RightBrace);
                    assert((seq![TokenType::LeftBrace] + ts_o).last() == ts_o.last());
                },
                _ => {},
            }
        },
        _ => {},
    }
}

/// Law (re-lexing a list span): lexing the stored span of a parsed
/// list from its first character reproduces a token stream whose
/// first token is `[` and whose last token is the matching `]`.
pub proof fn lemma_relex_list_span(s: Seq<char>, p: int)
    requires
        0 <= p <= s.len(),
    ensures
        match spec_parse_value(s, p) {
            ParseOut::Val { m: ValueModel::List { span, items }, end } => match token_kinds(
                span,
                0,
            ) {
                Some(ts) => ts.len() >= 2 && ts[0] == TokenType::LeftBracket && ts.last()
                    == TokenType::RightBracket,
                None => false,
            },
            _ => true,
        },
{
    lemma_ws_end(s, p);
    lemma_step_next(s, p);
    lemma_parse_value_end(s, p);
    lemma_value_stream(s, p);
    match spec_parse_value(s, p) {
        ParseOut::Val { m: ValueModel::List { span, items }, end } => {
            match lex_step(s, p) {
                LexStep::Tok { typ, text, pos, next } => {
                    crate::laws::lemma_obj_shape(s, pos, next, Seq::empty(), false);
                    crate::laws::lemma_list_shape(s, pos, next, Seq::empty(), false);
                    assert(typ is LeftBracket);
                    lemma_parse_list_end(s, pos, next, Seq::empty(), false);
                    lemma_list_stream(s, pos, next, Seq::empty(), false);
                    assert(end >= next);
                    assert(span == s.subrange(pos, end));
                    assert(ws_end(s, pos) == pos);
                    assert(lex_step(s, pos) == lex_step(s, p));
                    let ts_o = kinds_until(s, next, end)->Some_0;
                    assert(kinds_until(s, pos, end) == Some(seq![TokenType::LeftBracket] + ts_o));
                    lemma_kinds_shift(s, pos, end, pos);
                    assert(token_kinds(span, 0) == Some(seq![TokenType::LeftBracket] + ts_o));
                    lemma_list_stream(s, pos, next, Seq::empty(), false);
                    assert(ts_o.len() >= 1 && ts_o.last() == TokenType::RightBracket);
                    assert((seq![TokenType::LeftBracket] + ts_o).last() == ts_o.last());
                },
                _ => {},
            }
        },
        _ => {},
    }
}

} // verus!
