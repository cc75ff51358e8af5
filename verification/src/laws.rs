//! Laws of the engine, stated once over the specification functions
//! and proved for all inputs. Callers reach them through the
//! contracts of [`crate::Parser::parse`] and
//! [`crate::value::insert_entry`], whose results are stated over the
//! same functions.

use vstd::prelude::*;

use crate::lexer::lex_step;
use crate::lexer::lemma_step_next;
use crate::lexer::LexStep;
use crate::parser::spec_parse_list;
use crate::parser::spec_parse_obj;
use crate::parser::spec_parse_value;
use crate::parser::step_pos;
use crate::parser::lemma_parse_value_end;
use crate::parser::ParseOut;
use crate::value::distinct_keys;
use crate::value::distinct_keys_throughout;
use crate::value::find_key;
use crate::value::keys_of;
use crate::value::upsert;
use crate::value::ValueModel;

verus! {

/// Law: a document whose first token is a string, number or literal
/// parses to a `Prim` holding exactly that token's text — for a
/// string the characters strictly between the quotes, for a number or
/// literal the token verbatim.
pub proof fn lemma_primitive_parse(s: Seq<char>, p: int)
    requires
        0 <= p,
    ensures
        match lex_step(s, p) {
            LexStep::Tok { typ, text, pos, next } => (typ is String || typ is Number
                || typ is Literal) ==> spec_parse_value(s, p) == (ParseOut::Val {
                m: ValueModel::Prim { text },
                end: next,
            }),
            _ => true,
        },
{
}

/// Law: tokens come in strictly increasing position order and their
/// extents never overlap — every pull that yields a token moves the
/// cursor strictly forward, and the token pulled next, if any, begins
/// at or past that cursor and strictly past the previous token's
/// recorded position.
pub proof fn lemma_tokens_strictly_advance(s: Seq<char>, p: int)
    requires
        0 <= p,
    ensures
        match lex_step(s, p) {
            LexStep::Tok { typ, text, pos, next } => p < next && match lex_step(s, next) {
                LexStep::Tok { typ: t2, text: x2, pos: pos2, next: next2 } => {
                    &&& pos < pos2
                    &&& next <= pos2
                    &&& next < next2
                },
                _ => true,
            },
            _ => true,
        },
{
    lemma_step_next(s, p);
    match lex_step(s, p) {
        LexStep::Tok { typ, text, pos, next } => {
            lemma_step_next(s, next);
        },
        _ => {},
    }
}

/// Law: the stored span of a parsed object is exactly the substring
/// of the input from its opening `{` to its matching `}` inclusive.
pub proof fn lemma_object_span_round_trip(s: Seq<char>, p: int)
    requires
        0 <= p <= s.len(),
    ensures
        ({
            let out = spec_parse_value(s, p);
            out matches ParseOut::Val { m: ValueModel::Obj { span, entries }, end } ==> {
                &&& span == s.subrange(step_pos(s, p), end)
                &&& s[step_pos(s, p)] == '{'
                &&& s[end - 1] == '}'
            }
        }),
{
    lemma_step_next(s, p);
    match lex_step(s, p) {
        LexStep::Tok { typ, text, pos, next } => {
            if typ is LeftBrace {
                lemma_obj_shape(s, pos, next, Seq::empty(), false);
            } else if typ is LeftBracket {
                lemma_list_shape(s, pos, next, Seq::empty(), false);
            }
        },
        _ => {},
    }
}

/// Law: the stored span of a parsed list is exactly the substring of
/// the input from its opening `[` to its matching `]` inclusive.
pub proof fn lemma_list_span_round_trip(s: Seq<char>, p: int)
    requires
        0 <= p <= s.len(),
    ensures
        ({
            let out = spec_parse_value(s, p);
            out matches ParseOut::Val { m: ValueModel::List { span, items }, end } ==> {
                &&& span == s.subrange(step_pos(s, p), end)
                &&& s[step_pos(s, p)] == '['
                &&& s[end - 1] == ']'
            }
        }),
{
    lemma_step_next(s, p);
    match lex_step(s, p) {
        LexStep::Tok { typ, text, pos, next } => {
            if typ is LeftBrace {
                lemma_obj_shape(s, pos, next, Seq::empty(), false);
            } else if typ is LeftBracket {
                lemma_list_shape(s, pos, next, Seq::empty(), false);
            }
        },
        _ => {},
    }
}

/// A successful object parse yields an `Obj` whose span runs from the
/// opening delimiter at `start` to the closing `}` inclusive.
pub(crate) proof fn lemma_obj_shape(
    s: Seq<char>,
    start: int,
    p: int,
    acc: Seq<(Seq<char>, ValueModel)>,
    after_comma: bool,
)
    requires
        0 <= p <= s.len(),
    ensures
        match spec_parse_obj(s, start, p, acc, after_comma) {
            ParseOut::Val { m, end } => m matches ValueModel::Obj { span, entries } && span
                == s.subrange(start, end) && s[end - 1] == '}',
            _ => true,
        },
    decreases s.len() - p, 0int,
{
    lemma_step_next(s, p);
    match lex_step(s, p) {
        LexStep::Tok { typ, text, pos: kpos, next: knext } => {
            if typ is String {
                lemma_step_next(s, knext);
                match lex_step(s, knext) {
                    LexStep::Tok { typ: ctyp, next: cnext, .. } => {
                        if ctyp is Colon {
                            lemma_parse_value_end(s, cnext);
                            match spec_parse_value(s, cnext) {
                                ParseOut::Val { m, end } => {
                                    let vp = if end < cnext {
                                        cnext
                                    } else {
                                        end
                                    };
                                    lemma_step_next(s, vp);
                                    match lex_step(s, vp) {
                                        LexStep::Tok { typ: styp, next: snext, .. } => {
                                            if styp is Comma {
                                                lemma_obj_shape(
                                                    s,
                                                    start,
                                                    snext,
                                                    upsert(acc, text, m),
                                                    true,
                                                );
                                            }
                                        },
                                        _ => {},
                                    }
                                },
                                _ => {},
                            }
                        }
                    },
                    _ => {},
                }
            }
        },
        _ => {},
    }
}

/// A successful list parse yields a `List` whose span runs from the
/// opening delimiter at `start` to the closing `]` inclusive.
pub(crate) proof fn lemma_list_shape(
    s: Seq<char>,
    start: int,
    p: int,
    acc: Seq<ValueModel>,
    after_comma: bool,
)
    requires
        0 <= p <= s.len(),
    ensures
        match spec_parse_list(s, start, p, acc, after_comma) {
            ParseOut::Val { m, end } => m matches ValueModel::List { span, items } && span
                == s.subrange(start, end) && s[end - 1] == ']',
            _ => true,
        },
    decreases s.len() - p, 1int,
{
    lemma_step_next(s, p);
    match lex_step(s, p) {
        LexStep::Tok { typ, text, pos: tpos, next: tnext } => {
            if !(typ is RightBracket && !after_comma) {
                lemma_parse_value_end(s, p);
                match spec_parse_value(s, p) {
                    ParseOut::Val { m, end } => {
                        let vp = if end < p {
                            p
                        } else {
                            end
                        };
                        lemma_step_next(s, vp);
                        match lex_step(s, vp) {
                            LexStep::Tok { typ: styp, next: snext, .. } => {
                                if styp is Comma {
                                    lemma_list_shape(s, start, snext, acc.push(m), true);
                                }
                            },
                            _ => {},
                        }
                    },
                    _ => {},
                }
            }
        },
        _ => {},
    }
}

/// Law: entry insertion is last-write-wins. Inserting under `k`
/// makes `k` map to the new value, leaves every other key's value
/// alone, keeps keys distinct, and preserves key order: a key already
/// present keeps its first-seen position, a fresh key is appended at
/// the end.
pub proof fn lemma_duplicate_key_last_wins(
    es: Seq<(Seq<char>, ValueModel)>,
    k: Seq<char>,
    m: ValueModel,
)
    requires
        distinct_keys(es),
    ensures
        find_key(upsert(es, k, m), k) == Some(m),
        forall|k2: Seq<char>| k2 != k ==> find_key(upsert(es, k, m), k2) == find_key(es, k2),
        distinct_keys(upsert(es, k, m)),
        keys_of(upsert(es, k, m)) == if find_key(es, k) is Some {
            keys_of(es)
        } else {
            keys_of(es).push(k)
        },
    decreases es,
{
    let up = upsert(es, k, m);
    lemma_keys_of(es);
    lemma_keys_of(up);
    if es.len() == 0 {
        assert(up =~= seq![(k, m)]);
        assert forall|k2: Seq<char>| k2 != k implies find_key(up, k2) == find_key(
            es,
            k2,
        ) by {
            assert(up.drop_first() =~= Seq::<(Seq<char>, ValueModel)>::empty());
            assert(find_key(Seq::<(Seq<char>, ValueModel)>::empty(), k2) is None);
            assert(find_key(up, k2) is None);
            assert(find_key(es, k2) is None);
        }
        assert(keys_of(up) =~= keys_of(es).push(k));
    } else if es[0].0 == k {
        assert(up == seq![(k, m)] + es.drop_first());
        assert(up.drop_first() =~= es.drop_first());
        assert(find_key(up, k) == Some(m));
        assert forall|k2: Seq<char>| k2 != k implies find_key(up, k2) == find_key(
            es,
            k2,
        ) by {
            assert(find_key(up, k2) == find_key(es.drop_first(), k2));
            assert(find_key(es, k2) == find_key(es.drop_first(), k2));
        }
        assert forall|i2: int, j2: int| 0 <= i2 < j2 < up.len() implies up[i2].0
            != up[j2].0 by {
            assert(up[j2] == es[j2]);
            if i2 > 0 {
                assert(up[i2] == es[i2]);
            }
        }
        assert(keys_of(up) =~= keys_of(es));
    } else {
        let rest = es.drop_first();
        assert(forall|j: int| 0 <= j < rest.len() ==> rest[j] == es[j + 1]);
        assert(forall|i2: int, j2: int|
            0 <= i2 < j2 < rest.len() ==> rest[i2].0 != rest[j2].0);
        lemma_duplicate_key_last_wins(rest, k, m);
        let uprest = upsert(rest, k, m);
        lemma_keys_of(rest);
        lemma_keys_of(uprest);
        assert(up == seq![es[0]] + uprest);
        assert(up.drop_first() =~= uprest);
        assert(up[0] == es[0]);
        // the head key differs from every key of the rest, old or new
        assert forall|j: int| 0 <= j < uprest.len() implies uprest[j].0 != es[0].0 by {
            assert(keys_of(uprest)[j] == uprest[j].0);
            if find_key(rest, k) is Some {
                assert(keys_of(uprest) == keys_of(rest));
                assert(keys_of(rest)[j] == rest[j].0);
            } else {
                assert(keys_of(uprest) == keys_of(rest).push(k));
                if j < uprest.len() - 1 {
                    assert(keys_of(rest).push(k)[j] == keys_of(rest)[j]);
                    assert(keys_of(rest)[j] == rest[j].0);
                } else {
                    assert(keys_of(rest).push(k)[j] == k);
                }
            }
        }
        assert(find_key(up, k) == find_key(uprest, k));
        assert forall|k2: Seq<char>| k2 != k implies find_key(up, k2) == find_key(
            es,
            k2,
        ) by {
            if k2 == es[0].0 {
                assert(find_key(up, k2) == Some(up[0].1));
                assert(find_key(es, k2) == Some(es[0].1));
            } else {
                assert(find_key(up, k2) == find_key(uprest, k2));
                assert(find_key(es, k2) == find_key(rest, k2));
            }
        }
        if find_key(rest, k) is Some {
            assert forall|i: int| 0 <= i < up.len() implies keys_of(up)[i] == keys_of(
                es,
            )[i] by {
                assert(keys_of(up)[i] == up[i].0);
                assert(keys_of(es)[i] == es[i].0);
                if i > 0 {
                    assert(up[i] == uprest[i - 1]);
                    assert(keys_of(uprest)[i - 1] == uprest[i - 1].0);
                    assert(keys_of(rest)[i - 1] == rest[i - 1].0);
                }
            }
            assert(keys_of(up) =~= keys_of(es));
        } else {
            assert forall|i: int| 0 <= i < up.len() implies keys_of(up)[i] == keys_of(
                es,
            ).push(k)[i] by {
                assert(keys_of(up)[i] == up[i].0);
                if i == 0 {
                    assert(keys_of(es).push(k)[0] == es[0].0);
                } else {
                    assert(up[i] == uprest[i - 1]);
                    assert(keys_of(uprest)[i - 1] == uprest[i - 1].0);
                    assert(keys_of(uprest)[i - 1] == keys_of(rest).push(k)[i - 1]);
                    if i < up.len() - 1 {
                        assert(keys_of(rest).push(k)[i - 1] == keys_of(rest)[i - 1]);
                        assert(keys_of(rest)[i - 1] == rest[i - 1].0);
                        assert(keys_of(es).push(k)[i] == keys_of(es)[i]);
                        assert(rest[i - 1] == es[i]);
                    } else {
                        assert(keys_of(rest).push(k)[i - 1] == k);
                        assert(keys_of(es).push(k)[i] == k);
                    }
                }
            }
            assert(keys_of(up) =~= keys_of(es).push(k));
        }
        assert(find_key(es, k) == find_key(rest, k));
    }
}

/// Law: every object anywhere in a parsed value keeps distinct keys —
/// with last-write-wins insertion, no key survives twice.
pub proof fn lemma_parsed_keys_distinct(s: Seq<char>, p: int)
    requires
        0 <= p <= s.len(),
    ensures
        match spec_parse_value(s, p) {
            ParseOut::Val { m, end } => distinct_keys_throughout(m),
            _ => true,
        },
    decreases s.len() - p, 1int,
{
    lemma_step_next(s, p);
    match lex_step(s, p) {
        LexStep::Tok { typ, text, pos, next } => {
            if typ is LeftBrace {
                lemma_obj_entries_distinct(s, pos, next, Seq::empty(), false);
            } else if typ is LeftBracket {
                lemma_list_items_distinct(s, pos, next, Seq::empty(), false);
            }
        },
        _ => {},
    }
}

/// Inserting a well-formed value under a key keeps every stored
/// value well-formed.
proof fn lemma_upsert_values_distinct(
    es: Seq<(Seq<char>, ValueModel)>,
    k: Seq<char>,
    m: ValueModel,
)
    requires
        forall|i: int| 0 <= i < es.len() ==> distinct_keys_throughout(#[trigger] es[i].1),
        distinct_keys_throughout(m),
    ensures
        forall|i: int|
            0 <= i < upsert(es, k, m).len() ==> distinct_keys_throughout(
                #[trigger] upsert(es, k, m)[i].1,
            ),
    decreases es,
{
    let up = upsert(es, k, m);
    if es.len() == 0 {
        assert(up =~= seq![(k, m)]);
    } else if es[0].0 == k {
        assert forall|i: int| 0 <= i < up.len() implies distinct_keys_throughout(
            #[trigger] up[i].1,
        ) by {
            if i > 0 {
                assert(up[i] == es.drop_first()[i - 1]);
                assert(up[i] == es[i]);
            }
        }
    } else {
        assert(forall|i: int|
            0 <= i < es.drop_first().len() ==> distinct_keys_throughout(
                #[trigger] es.drop_first()[i].1,
            ));
        lemma_upsert_values_distinct(es.drop_first(), k, m);
        let uprest = upsert(es.drop_first(), k, m);
        assert forall|i: int| 0 <= i < up.len() implies distinct_keys_throughout(
            #[trigger] up[i].1,
        ) by {
            if i > 0 {
                assert(up[i] == uprest[i - 1]);
            }
        }
    }
}

/// A successful object parse keeps distinct keys in its own entries
/// and in every object below them.
proof fn lemma_obj_entries_distinct(
    s: Seq<char>,
    start: int,
    p: int,
    acc: Seq<(Seq<char>, ValueModel)>,
    after_comma: bool,
)
    requires
        0 <= p <= s.len(),
        distinct_keys(acc),
        forall|i: int| 0 <= i < acc.len() ==> distinct_keys_throughout(#[trigger] acc[i].1),
    ensures
        match spec_parse_obj(s, start, p, acc, after_comma) {
            ParseOut::Val { m, end } => distinct_keys_throughout(m),
            _ => true,
        },
    decreases s.len() - p, 0int,
{
    lemma_step_next(s, p);
    match lex_step(s, p) {
        LexStep::Tok { typ, text, pos: kpos, next: knext } => {
            if typ is String {
                lemma_step_next(s, knext);
                match lex_step(s, knext) {
                    LexStep::Tok { typ: ctyp, next: cnext, .. } => {
                        if ctyp is Colon {
                            lemma_parse_value_end(s, cnext);
                            lemma_parsed_keys_distinct(s, cnext);
                            match spec_parse_value(s, cnext) {
                                ParseOut::Val { m, end } => {
                                    let vp = if end < cnext {
                                        cnext
                                    } else {
                                        end
                                    };
                                    lemma_step_next(s, vp);
                                    match lex_step(s, vp) {
                                        LexStep::Tok { typ: styp, next: snext, .. } => {
                                            if styp is Comma || styp is RightBrace {
                                                lemma_duplicate_key_last_wins(acc, text, m);
                                                lemma_upsert_values_distinct(acc, text, m);
                                                if styp is Comma {
                                                    lemma_obj_entries_distinct(
                                                        s,
                                                        start,
                                                        snext,
                                                        upsert(acc, text, m),
                                                        true,
                                                    );
                                                }
                                            }
                                        },
                                        _ => {},
                                    }
                                },
                                _ => {},
                            }
                        }
                    },
                    _ => {},
                }
            }
        },
        _ => {},
    }
}

/// A successful list parse keeps distinct keys in every object below
/// its elements.
proof fn lemma_list_items_distinct(
    s: Seq<char>,
    start: int,
    p: int,
    acc: Seq<ValueModel>,
    after_comma: bool,
)
    requires
        0 <= p <= s.len(),
        forall|i: int| 0 <= i < acc.len() ==> distinct_keys_throughout(#[trigger] acc[i]),
    ensures
        match spec_parse_list(s, start, p, acc, after_comma) {
            ParseOut::Val { m, end } => distinct_keys_throughout(m),
            _ => true,
        },
    decreases s.len() - p, 2int,
{
    lemma_step_next(s, p);
    match lex_step(s, p) {
        LexStep::Tok { typ, text, pos: tpos, next: tnext } => {
            if !(typ is RightBracket && !after_comma) {
                lemma_parse_value_end(s, p);
                lemma_parsed_keys_distinct(s, p);
                match spec_parse_value(s, p) {
                    ParseOut::Val { m, end } => {
                        let vp = if end < p {
                            p
                        } else {
                            end
                        };
                        lemma_step_next(s, vp);
                        assert(forall|i: int|
                            0 <= i < acc.push(m).len() ==> distinct_keys_throughout(
                                #[trigger] acc.push(m)[i],
                            ));
                        match lex_step(s, vp) {
                            LexStep::Tok { typ: styp, next: snext, .. } => {
                                if styp is Comma {
                                    lemma_list_items_distinct(s, start, snext, acc.push(m), true);
                                }
                            },
                            _ => {},
                        }
                    },
                    _ => {},
                }
            }
        },
        _ => {},
    }
}

/// The keys of an entry list, pointwise.
proof fn lemma_keys_of(es: Seq<(Seq<char>, ValueModel)>)
    ensures
        keys_of(es).len() == es.len(),
        forall|i: int| 0 <= i < es.len() ==> keys_of(es)[i] == es[i].0,
{
}

} // verus!

