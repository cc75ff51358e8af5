//! The value model: the result tree of a parse.
//!
//! A [`Value`] borrows everything from the input buffer: a primitive
//! holds the matched text of its token, and each composite holds the
//! exact source substring it was parsed from, together with its
//! children. [`ValueModel`] is the mathematical shape of a value, with
//! every borrowed slice replaced by its character sequence; contracts
//! speak of values through [`model_of`].

use vstd::prelude::*;
use vstd::string::*;

use crate::text::is_digit_char;

verus! {

/// The mathematical shape of a [`Value`]: text and spans as character
/// sequences, children in order, object entries as key/value pairs in
/// key-insertion order.
pub ghost enum ValueModel {
    Prim { text: Seq<char> },
    List { span: Seq<char>, items: Seq<ValueModel> },
    Obj { span: Seq<char>, entries: Seq<(Seq<char>, ValueModel)> },
}

/// A parsed JSON value, borrowing from the input buffer.
///
/// `Primitive` holds the matched text of a string, number or literal
/// token (for a string, the characters strictly between the quotes,
/// not unescaped). `List` and `Obj` hold their children together with
/// `slice`, the full source substring from the opening delimiter to
/// the matching closing one inclusive. Object entries keep first-seen
/// key order, and a duplicate key overwrites the earlier value.
#[derive(Debug, PartialEq)]
pub enum Value<'a> {
    Primitive(&'a str),
    List { slice: &'a str, items: Vec<Value<'a>> },
    Obj { slice: &'a str, map: Vec<(&'a str, Value<'a>)> },
}

/// The model of a value.
pub open spec fn model_of(v: Value) -> ValueModel
    decreases v,
{
    match v {
        Value::Primitive(t) => ValueModel::Prim { text: t@ },
        Value::List { slice, items } => ValueModel::List {
            span: slice@,
            items: models_of(items@),
        },
        Value::Obj { slice, map } => ValueModel::Obj {
            span: slice@,
            entries: entries_model(map@),
        },
    }
}

/// The models of a sequence of values, in order.
pub open spec fn models_of(items: Seq<Value>) -> Seq<ValueModel>
    decreases items,
{
    if items.len() == 0 {
        Seq::empty()
    } else {
        models_of(items.drop_last()).push(model_of(items.last()))
    }
}

/// The models of a sequence of object entries, in order.
pub open spec fn entries_model(entries: Seq<(&str, Value)>) -> Seq<(Seq<char>, ValueModel)>
    decreases entries,
{
    if entries.len() == 0 {
        Seq::empty()
    } else {
        entries_model(entries.drop_last()).push(
            (entries.last().0@, model_of(entries.last().1)),
        )
    }
}

pub proof fn lemma_models_of(items: Seq<Value>)
    ensures
        models_of(items).len() == items.len(),
        forall|j: int|
            0 <= j < items.len() ==> models_of(items)[j] == model_of(items[j]),
    decreases items,
{
    if items.len() > 0 {
        lemma_models_of(items.drop_last());
    }
}

pub proof fn lemma_entries_model(entries: Seq<(&str, Value)>)
    ensures
        entries_model(entries).len() == entries.len(),
        forall|j: int|
            0 <= j < entries.len() ==> entries_model(entries)[j] == (
                entries[j].0@,
                model_of(entries[j].1),
            ),
    decreases entries,
{
    if entries.len() > 0 {
        lemma_entries_model(entries.drop_last());
    }
}

/// The stored text of a model: the matched text of a primitive, the
/// full source span of a composite.
pub open spec fn spec_text(m: ValueModel) -> Seq<char> {
    match m {
        ValueModel::Prim { text } => text,
        ValueModel::List { span, .. } => span,
        ValueModel::Obj { span, .. } => span,
    }
}

/// The value under the first entry whose key is `k`, if any.
pub open spec fn find_key(es: Seq<(Seq<char>, ValueModel)>, k: Seq<char>) -> Option<ValueModel>
    decreases es,
{
    if es.len() == 0 {
        None
    } else if es[0].0 == k {
        Some(es[0].1)
    } else {
        find_key(es.drop_first(), k)
    }
}

/// Entry insertion with last-write-wins: a duplicate key keeps its
/// first-seen position and takes the new value; a fresh key is
/// appended.
pub open spec fn upsert(
    es: Seq<(Seq<char>, ValueModel)>,
    k: Seq<char>,
    m: ValueModel,
) -> Seq<(Seq<char>, ValueModel)>
    decreases es,
{
    if es.len() == 0 {
        seq![(k, m)]
    } else if es[0].0 == k {
        seq![(k, m)] + es.drop_first()
    } else {
        seq![es[0]] + upsert(es.drop_first(), k, m)
    }
}

/// The keys of an entry list, in order.
pub open spec fn keys_of(es: Seq<(Seq<char>, ValueModel)>) -> Seq<Seq<char>> {
    es.map_values(|e: (Seq<char>, ValueModel)| e.0)
}

/// No key occurs twice.
pub open spec fn distinct_keys(es: Seq<(Seq<char>, ValueModel)>) -> bool {
    forall|i: int, j: int| 0 <= i < j < es.len() ==> es[i].0 != es[j].0
}

/// Every object anywhere in the tree keeps distinct keys.
pub open spec fn distinct_keys_throughout(m: ValueModel) -> bool
    decreases m,
{
    match m {
        ValueModel::Prim { .. } => true,
        ValueModel::List { items, .. } => forall|i: int|
            0 <= i < items.len() ==> distinct_keys_throughout(#[trigger] items[i]),
        ValueModel::Obj { entries, .. } => distinct_keys(entries) && forall|i: int|
            0 <= i < entries.len() ==> distinct_keys_throughout(#[trigger] entries[i].1),
    }
}

proof fn lemma_upsert_found(es: Seq<(Seq<char>, ValueModel)>, k: Seq<char>, m: ValueModel, i: int)
    requires
        0 <= i < es.len(),
        es[i].0 == k,
        forall|j: int| 0 <= j < i ==> es[j].0 != k,
    ensures
        upsert(es, k, m) =~= es.update(i, (k, m)),
    decreases es,
{
    if i == 0 {
    } else {
        lemma_upsert_found(es.drop_first(), k, m, i - 1);
    }
}

proof fn lemma_upsert_absent(es: Seq<(Seq<char>, ValueModel)>, k: Seq<char>, m: ValueModel)
    requires
        forall|j: int| 0 <= j < es.len() ==> es[j].0 != k,
    ensures
        upsert(es, k, m) =~= es.push((k, m)),
    decreases es,
{
    if es.len() > 0 {
        lemma_upsert_absent(es.drop_first(), k, m);
    }
}

/// Whether two borrowed strings hold the same characters.
pub fn str_equal(a: &str, b: &str) -> (r: bool)
    ensures
        r == (a@ == b@),
{
    let n = a.unicode_len();
    if n != b.unicode_len() {
        return false;
    }
    let mut i: usize = 0;
    while i < n
        invariant
            i <= n,
            n == a@.len(),
            n == b@.len(),
            forall|j: int| 0 <= j < i ==> a@[j] == b@[j],
        decreases n - i,
    {
        if a.get_char(i) != b.get_char(i) {
            return false;
        }
        i = i + 1;
    }
    proof {
        assert(a@ =~= b@);
    }
    true
}

/// Inserts `(key, value)` into an entry list with last-write-wins: an
/// existing entry with the same key text keeps its position and takes
/// the new value, a fresh key is appended at the end.
pub fn insert_entry<'a>(map: &mut Vec<(&'a str, Value<'a>)>, key: &'a str, value: Value<'a>)
    ensures
        entries_model(final(map)@) == upsert(entries_model(old(map)@), key@, model_of(value)),
{
    proof {
        lemma_entries_model(old(map)@);
    }
    let mut i: usize = 0;
    loop
        invariant
            i <= map.len(),
            map@ == old(map)@,
            forall|j: int| 0 <= j < i ==> old(map)@[j].0@ != key@,
        ensures
            map@ == old(map)@,
            i == map@.len(),
            forall|j: int| 0 <= j < map@.len() ==> old(map)@[j].0@ != key@,
        decreases map.len() - i,
    {
        if i >= map.len() {
            break ;
        }
        if str_equal(map[i].0, key) {
            map.set(i, (key, value));
            proof {
                lemma_entries_model(old(map)@);
                lemma_upsert_found(entries_model(old(map)@), key@, model_of(value), i as int);
                lemma_entries_model(map@);
                assert(entries_model(map@) =~= entries_model(old(map)@).update(
                    i as int,
                    (key@, model_of(value)),
                ));
            }
            return ;
        }
        i = i + 1;
    }
    map.push((key, value));
    proof {
        lemma_upsert_absent(entries_model(old(map)@), key@, model_of(value));
        lemma_entries_model(map@);
        assert(entries_model(map@) =~= entries_model(old(map)@).push((key@, model_of(value))));
    }
}

/// A failed path lookup: a key absent from an object, an index at or
/// past the end of a list, a list component that is not a run of
/// digits, or a component applied to a primitive.
#[derive(Debug, Clone, Copy, PartialEq, Eq, Structural)]
pub enum QueryError {
    KeyNotFound,
    IndexOutOfRange,
    InvalidIndex,
    NotAContainer,
}

/// A non-empty run of ASCII digits.
pub open spec fn is_digit_seq(t: Seq<char>) -> bool {
    t.len() > 0 && forall|j: int| 0 <= j < t.len() ==> is_digit_char(t[j])
}

/// The decimal value of a run of digits.
pub open spec fn digits_val(t: Seq<char>) -> int
    decreases t,
{
    if t.len() == 0 {
        0
    } else {
        digits_val(t.drop_last()) * 10 + (t.last() as int - '0' as int)
    }
}

/// Index of the first `.` at or after `i`, or `p.len()` if none
/// remains: the end of the path component that begins at `i`.
pub open spec fn seg_end(p: Seq<char>, i: int) -> int
    decreases p.len() - i,
{
    if i < 0 || i >= p.len() {
        i
    } else if p[i] == '.' {
        i
    } else {
        seg_end(p, i + 1)
    }
}

pub proof fn lemma_seg_end(p: Seq<char>, i: int)
    requires
        0 <= i <= p.len(),
    ensures
        i <= seg_end(p, i) <= p.len(),
        forall|j: int| i <= j < seg_end(p, i) ==> p[j] != '.',
        seg_end(p, i) < p.len() ==> p[seg_end(p, i)] == '.',
    decreases p.len() - i,
{
    if i < p.len() && p[i] != '.' {
        lemma_seg_end(p, i + 1);
    }
}

/// The path components from offset `i` on: the runs between the dots.
pub open spec fn split_from(p: Seq<char>, i: int) -> Seq<Seq<char>>
    decreases p.len() - i,
{
    if i < 0 {
        Seq::empty()
    } else {
        let j = seg_end(p, i);
        proof {
            lemma_seg_end_ge(p, i);
        }
        if j >= p.len() {
            seq![p.subrange(i, p.len() as int)]
        } else {
            seq![p.subrange(i, j)] + split_from(p, j + 1)
        }
    }
}

pub proof fn lemma_seg_end_ge(p: Seq<char>, i: int)
    ensures
        seg_end(p, i) >= i,
    decreases p.len() - i,
{
    if 0 <= i < p.len() && p[i] != '.' {
        lemma_seg_end_ge(p, i + 1);
    }
}

/// The dot-separated components of a path.
pub open spec fn split_path(p: Seq<char>) -> Seq<Seq<char>> {
    split_from(p, 0)
}

/// One step of a path lookup: on an object the component names a key,
/// on a list it must be a run of digits naming an index, and on a
/// primitive every component fails.
pub open spec fn lookup_step(m: ValueModel, comp: Seq<char>) -> Result<ValueModel, QueryError> {
    match m {
        ValueModel::Prim { .. } => Err(QueryError::NotAContainer),
        ValueModel::Obj { entries, .. } => match find_key(entries, comp) {
            Some(v) => Ok(v),
            None => Err(QueryError::KeyNotFound),
        },
        ValueModel::List { items, .. } => if !is_digit_seq(comp) {
            Err(QueryError::InvalidIndex)
        } else if digits_val(comp) >= items.len() {
            Err(QueryError::IndexOutOfRange)
        } else {
            Ok(items[digits_val(comp)])
        },
    }
}

/// A path lookup: the components applied in order from the root.
pub open spec fn nav_path(m: ValueModel, comps: Seq<Seq<char>>) -> Result<ValueModel, QueryError>
    decreases comps.len(),
{
    if comps.len() == 0 {
        Ok(m)
    } else {
        match lookup_step(m, comps[0]) {
            Ok(m2) => nav_path(m2, comps.drop_first()),
            Err(e) => Err(e),
        }
    }
}

/// What a query returns: the value itself for the empty path, and
/// otherwise the result of following the dot-separated components.
pub open spec fn spec_query(m: ValueModel, p: Seq<char>) -> Result<ValueModel, QueryError> {
    if p.len() == 0 {
        Ok(m)
    } else {
        nav_path(m, split_path(p))
    }
}

proof fn lemma_find_key_at(es: Seq<(Seq<char>, ValueModel)>, k: Seq<char>, i: int)
    requires
        0 <= i < es.len(),
        es[i].0 == k,
        forall|j: int| 0 <= j < i ==> es[j].0 != k,
    ensures
        find_key(es, k) == Some(es[i].1),
    decreases es,
{
    if i > 0 {
        lemma_find_key_at(es.drop_first(), k, i - 1);
    }
}

proof fn lemma_find_key_absent(es: Seq<(Seq<char>, ValueModel)>, k: Seq<char>)
    requires
        forall|j: int| 0 <= j < es.len() ==> es[j].0 != k,
    ensures
        find_key(es, k) is None,
    decreases es,
{
    if es.len() > 0 {
        lemma_find_key_absent(es.drop_first(), k);
    }
}

proof fn lemma_digits_val_nonneg(t: Seq<char>)
    requires
        forall|j: int| 0 <= j < t.len() ==> is_digit_char(t[j]),
    ensures
        digits_val(t) >= 0,
    decreases t,
{
    if t.len() > 0 {
        assert(forall|j: int|
            0 <= j < t.drop_last().len() ==> is_digit_char(t.drop_last()[j]));
        lemma_digits_val_nonneg(t.drop_last());
    }
}

/// Appending digits never shrinks the value a run denotes.
proof fn lemma_digits_val_prefix(t: Seq<char>, k: int)
    requires
        0 <= k <= t.len(),
        forall|j: int| 0 <= j < t.len() ==> is_digit_char(t[j]),
    ensures
        digits_val(t.subrange(0, k)) <= digits_val(t),
    decreases t.len() - k,
{
    if k < t.len() {
        lemma_digits_val_prefix(t, k + 1);
        let a = t.subrange(0, k);
        let b = t.subrange(0, k + 1);
        assert(b.drop_last() =~= a);
        assert(forall|j: int| 0 <= j < a.len() ==> is_digit_char(a[j]));
        lemma_digits_val_nonneg(a);
    } else {
        assert(t.subrange(0, k) =~= t);
    }
}

/// The decimal value of `comp`, when it is a run of digits whose
/// value lies below `bound`; otherwise the query error that a list
/// lookup with this component reports against a list of `bound`
/// elements.
fn digit_index(comp: &str, bound: usize) -> (r: Result<usize, QueryError>)
    ensures
        match r {
            Ok(i) => is_digit_seq(comp@) && digits_val(comp@) == i && i < bound,
            Err(q) => (q == QueryError::InvalidIndex && !is_digit_seq(comp@)) || (q
                == QueryError::IndexOutOfRange && is_digit_seq(comp@) && digits_val(comp@)
                >= bound),
        },
{
    let n = comp.unicode_len();
    if n == 0 {
        return Err(QueryError::InvalidIndex);
    }
    let mut k: usize = 0;
    while k < n
        invariant
            k <= n,
            n == comp@.len(),
            forall|j: int| 0 <= j < k ==> is_digit_char(comp@[j]),
        decreases n - k,
    {
        let c = comp.get_char(k);
        if !('0' <= c && c <= '9') {
            return Err(QueryError::InvalidIndex);
        }
        k = k + 1;
    }
    let mut acc: usize = 0;
    k = 0;
    while k < n
        invariant
            k <= n,
            n == comp@.len(),
            is_digit_seq(comp@),
            acc as int == digits_val(comp@.subrange(0, k as int)),
        decreases n - k,
    {
        let c = comp.get_char(k);
        let d = (c as u32 - '0' as u32) as usize;
        if acc > (usize::MAX - d) / 10 {
            proof {
                lemma_digits_val_prefix(comp@, k as int + 1);
                assert(comp@.subrange(0, k as int + 1).drop_last() =~= comp@.subrange(
                    0,
                    k as int,
                ));
                assert(digits_val(comp@.subrange(0, k as int + 1)) > usize::MAX);
            }
            return Err(QueryError::IndexOutOfRange);
        }
        proof {
            assert(comp@.subrange(0, k as int + 1).drop_last() =~= comp@.subrange(0, k as int));
        }
        acc = acc * 10 + d;
        k = k + 1;
    }
    proof {
        assert(comp@.subrange(0, n as int) =~= comp@);
    }
    if acc >= bound {
        Err(QueryError::IndexOutOfRange)
    } else {
        Ok(acc)
    }
}

/// One lookup step on a value, as `lookup_step` says.
#[verifier::loop_isolation(false)]
fn lookup_once<'s, 'a>(v: &'s Value<'a>, comp: &str) -> (r: Result<&'s Value<'a>, QueryError>)
    ensures
        match lookup_step(model_of(*v), comp@) {
            Ok(m) => r matches Ok(w) && model_of(*w) == m,
            Err(q) => r matches Err(e) && e == q,
        },
{
    match v {
        Value::Primitive(_) => Err(QueryError::NotAContainer),
        Value::Obj { map, .. } => {
            proof {
                lemma_entries_model(map@);
            }
            let mut i: usize = 0;
            while i < map.len()
                invariant
                    i <= map@.len(),
                    forall|j: int| 0 <= j < i ==> map@[j].0@ != comp@,
                decreases map@.len() - i,
            {
                if str_equal(map[i].0, comp) {
                    proof {
                        lemma_entries_model(map@);
                        lemma_find_key_at(entries_model(map@), comp@, i as int);
                    }
                    return Ok(&map[i].1);
                }
                i = i + 1;
            }
            proof {
                lemma_entries_model(map@);
                lemma_find_key_absent(entries_model(map@), comp@);
            }
            Err(QueryError::KeyNotFound)
        },
        Value::List { items, .. } => {
            proof {
                lemma_models_of(items@);
            }
            match digit_index(comp, items.len()) {
                Ok(i) => Ok(&items[i]),
                Err(q) => Err(q),
            }
        },
    }
}

impl<'a> Value<'a> {
    /// The stored text of the value, verbatim from the input: the
    /// matched token text of a primitive, the full source span of a
    /// composite. Printing a value is echoing this slice.
    pub fn as_text(&self) -> (r: &'a str)
        ensures
            r@ == spec_text(model_of(*self)),
    {
        match self {
            Value::Primitive(t) => *t,
            Value::List { slice, .. } => *slice,
            Value::Obj { slice, .. } => *slice,
        }
    }

    /// Navigates to a sub-value along `path` and returns it, or the
    /// error of the first component that fails.
    ///
    /// The path grammar is minimal: components separated by `.`; on an
    /// object a component names a key, on a list it must be a
    /// non-empty run of ASCII digits naming a 0-based index, and on a
    /// primitive every component fails. The empty path names the
    /// value itself.
    pub fn query<'s>(&'s self, path: &str) -> (r: Result<&'s Value<'a>, QueryError>)
        ensures
            match spec_query(model_of(*self), path@) {
                Ok(m) => r matches Ok(v) && model_of(*v) == m,
                Err(q) => r matches Err(e) && e == q,
            },
    {
        let n = path.unicode_len();
        if n == 0 {
            return Ok(self);
        }
        let mut cur: &Value<'a> = self;
        let mut i: usize = 0;
        loop
            invariant
                0 <= i <= n,
                n == path@.len(),
                n > 0,
                nav_path(model_of(*self), split_path(path@)) == nav_path(
                    model_of(*cur),
                    split_from(path@, i as int),
                ),
            decreases n - i,
        {
            proof {
                lemma_seg_end(path@, i as int);
                reveal_with_fuel(nav_path, 3);
                reveal_with_fuel(split_from, 2);
            }
            let mut j: usize = i;
            while j < n
                invariant
                    i <= j <= n,
                    n == path@.len(),
                    seg_end(path@, j as int) == seg_end(path@, i as int),
                ensures
                    j as int == seg_end(path@, i as int),
                decreases n - j,
            {
                if path.get_char(j) == '.' {
                    break ;
                }
                j = j + 1;
            }
            let comp = path.substring_char(i, j);
            proof {
                let comps = split_from(path@, i as int);
                if j < n {
                    assert(comps.drop_first() =~= split_from(path@, j as int + 1));
                } else {
                    assert(comps.drop_first() =~= Seq::<Seq<char>>::empty());
                }
            }
            cur = match lookup_once(cur, comp) {
                Ok(w) => w,
                Err(q) => {
                    return Err(q);
                },
            };
            if j == n {
                return Ok(cur);
            }
            i = j + 1;
        }
    }
}

} // verus!
