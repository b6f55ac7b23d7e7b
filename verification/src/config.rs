//! Typed configuration values and the attribute strings that write them.
//!
//! An attribute string is a list of clauses between `;`. A clause is a key, or
//! a key, `=` and a raw value. The raw value is read as the first of these
//! that accepts it: a float literal, an integer, a boolean, a map literal, a
//! list literal; a raw value that none accepts is a list of that one text.

use vstd::prelude::*;
use crate::error::{DocError, DocResult, ErrorType};
use crate::number::{float_literal, is_float_literal, parse_i64, read_i64};
use crate::string_map::StringMap;
use crate::text::{
    chars_of, find, find_char, has_char, lemma_views_push, slice_of, spells, split, split_chars,
    string_of, views,
};

verus! {

/// One configuration value.
#[derive(Debug, Clone)]
pub enum ValueWrapper {
    /// A float, held as the literal that wrote it.
    Float(String),
    Number(i64),
    Text(String),
    Bool(bool),
    Array(Vec<String>),
    Mapping(StringMap<String>),
}

/// The configuration of a node: attribute names and their values.
pub type Config = StringMap<ValueWrapper>;

/// What a `ValueWrapper` stands for.
pub enum Value {
    Float(Seq<char>),
    Number(i64),
    Text(Seq<char>),
    Bool(bool),
    Array(Seq<Seq<char>>),
    Mapping(Map<Seq<char>, Seq<char>>),
}

impl View for ValueWrapper {
    type V = Value;

    open spec fn view(&self) -> Value {
        match self {
            ValueWrapper::Float(t) => Value::Float(t@),
            ValueWrapper::Number(n) => Value::Number(*n),
            ValueWrapper::Text(t) => Value::Text(t@),
            ValueWrapper::Bool(b) => Value::Bool(*b),
            ValueWrapper::Array(a) => Value::Array(views(a@)),
            ValueWrapper::Mapping(m) => Value::Mapping(m@),
        }
    }
}

/// The map that the items `key:value` write, a later item replacing an earlier
/// one of the same key. The first item without `:` is the error.
pub open spec fn items_to_map(items: Seq<Seq<char>>) -> Result<Map<Seq<char>, Seq<char>>, Seq<char>>
    decreases items.len(),
{
    if items.len() == 0 {
        Ok(Map::empty())
    } else {
        match items_to_map(items.drop_last()) {
            Err(item) => Err(item),
            Ok(m) => {
                let item = items.last();
                let colon = find(item, ':');
                if colon < item.len() {
                    Ok(m.insert(item.take(colon), item.skip(colon + 1)))
                } else {
                    Err(item)
                }
            },
        }
    }
}

/// A map literal: items between `,`, at least two, each `key:value` split at
/// its first `:`. The error is the text that was refused: the whole value
/// where it has no `,`, else the first item without `:`.
pub open spec fn parse_map_literal(raw: Seq<char>) -> Result<Map<Seq<char>, Seq<char>>, Seq<char>> {
    if raw.contains(',') {
        items_to_map(split(raw, ','))
    } else {
        Err(raw)
    }
}

/// A list literal: items between `,`, at least two. A value without `,` is refused.
pub open spec fn parse_list_literal(raw: Seq<char>) -> Result<Seq<Seq<char>>, Seq<char>> {
    if raw.contains(',') {
        Ok(split(raw, ','))
    } else {
        Err(raw)
    }
}

/// The value that a raw text writes.
pub open spec fn classify(raw: Seq<char>) -> Value {
    if is_float_literal(raw) {
        Value::Float(raw)
    } else if parse_i64(raw) is Some {
        Value::Number(parse_i64(raw)->0)
    } else if raw == "true"@ {
        Value::Bool(true)
    } else if raw == "false"@ {
        Value::Bool(false)
    } else if parse_map_literal(raw) is Ok {
        Value::Mapping(parse_map_literal(raw)->Ok_0)
    } else if parse_list_literal(raw) is Ok {
        Value::Array(parse_list_literal(raw)->Ok_0)
    } else {
        Value::Array(seq![raw])
    }
}

/// The key of a clause: what stands before its first `=`, or all of it.
pub open spec fn clause_key(clause: Seq<char>) -> Seq<char> {
    clause.take(find(clause, '='))
}

/// The value of a clause: what its text after the first `=` writes. A clause
/// without `=` is a flag that is set.
pub open spec fn clause_value(clause: Seq<char>) -> Value {
    let eq = find(clause, '=');
    if eq < clause.len() {
        classify(clause.skip(eq + 1))
    } else {
        Value::Bool(true)
    }
}

/// What a key holds after a second value arrives for it: a list takes the
/// items of a list at its end, a map takes the entries of a map, the new
/// entry replacing an old one of the same key. Nothing else can be merged.
pub open spec fn absorb(old_value: Value, new_value: Value) -> Option<Value> {
    match (old_value, new_value) {
        (Value::Array(a), Value::Array(b)) => Some(Value::Array(a + b)),
        (Value::Mapping(a), Value::Mapping(b)) => Some(Value::Mapping(a.union_prefer_right(b))),
        _ => None,
    }
}

/// The configuration after one more clause. The error is the key whose
/// values cannot be merged.
pub open spec fn merge(acc: Map<Seq<char>, Value>, key: Seq<char>, value: Value) -> Result<
    Map<Seq<char>, Value>,
    Seq<char>,
> {
    if acc.contains_key(key) {
        match absorb(acc[key], value) {
            Some(merged) => Ok(acc.insert(key, merged)),
            None => Err(key),
        }
    } else {
        Ok(acc.insert(key, value))
    }
}

/// The configuration after the clauses, taken from the first to the last.
/// The first key that cannot be merged is the error.
pub open spec fn fold_clauses(acc: Map<Seq<char>, Value>, clauses: Seq<Seq<char>>) -> Result<
    Map<Seq<char>, Value>,
    Seq<char>,
>
    decreases clauses.len(),
{
    if clauses.len() == 0 {
        Ok(acc)
    } else {
        match merge(acc, clause_key(clauses[0]), clause_value(clauses[0])) {
            Err(key) => Err(key),
            Ok(next) => fold_clauses(next, clauses.drop_first()),
        }
    }
}

/// The configuration that an attribute string writes.
pub open spec fn parse_config(s: Seq<char>) -> Result<Map<Seq<char>, Value>, Seq<char>> {
    fold_clauses(Map::empty(), split(s, ';'))
}

/// Whether `k` is among the first `n` of `keys`.
spec fn among(keys: Seq<Seq<char>>, n: int, k: Seq<char>) -> bool {
    exists|t: int| 0 <= t < n && t < keys.len() && keys[t] == k
}

/// Once an item is refused, more items do not change the error.
proof fn lemma_items_error_stays(items: Seq<Seq<char>>, k: int)
    requires
        0 <= k <= items.len(),
        items_to_map(items.take(k)) is Err,
    ensures
        items_to_map(items) == items_to_map(items.take(k)),
    decreases items.len(),
{
    if k == items.len() {
        assert(items.take(k) == items);
    } else {
        assert(items.drop_last().take(k) == items.take(k));
        lemma_items_error_stays(items.drop_last(), k);
    }
}

fn strings_of(pieces: &Vec<Vec<char>>) -> (out: Vec<String>)
    ensures
        views(out@) == views(pieces@),
{
    let mut out: Vec<String> = Vec::new();
    let mut i: usize = 0;
    while i < pieces.len()
        invariant
            i <= pieces.len(),
            views(out@) == views(pieces@).take(i as int),
        decreases pieces.len() - i,
    {
        let s = string_of(&pieces[i]);
        proof {
            lemma_views_push(out@, s);
            assert(views(pieces@).take(i + 1) == views(pieces@).take(i as int).push(pieces@[i as int]@));
        }
        out.push(s);
        i += 1;
    }
    proof {
        assert(views(pieces@).take(i as int) == views(pieces@));
    }
    out
}

fn map_literal(raw: &Vec<char>) -> (r: Result<StringMap<String>, String>)
    ensures
        match r {
            Ok(m) => parse_map_literal(raw@) == Ok::<_, Seq<char>>(m@),
            Err(t) => parse_map_literal(raw@) == Err::<Map<Seq<char>, Seq<char>>, _>(t@),
        },
{
    if !has_char(raw, ',') {
        return Err(string_of(raw));
    }
    let items = split_chars(raw, ',');
    let ghost all = views(items@);
    let mut m: StringMap<String> = StringMap::new();
    let mut i: usize = 0;
    proof {
        assert(all.take(0) == Seq::<Seq<char>>::empty());
    }
    while i < items.len()
        invariant
            i <= items.len(),
            all == views(items@),
            all == split(raw@, ','),
            raw@.contains(','),
            items_to_map(all.take(i as int)) == Ok::<_, Seq<char>>(m@),
        decreases items.len() - i,
    {
        let item = &items[i];
        let colon = find_char(item, ':');
        proof {
            assert(all.take(i + 1).drop_last() == all.take(i as int));
            assert(all.take(i + 1).last() == item@);
        }
        if colon == item.len() {
            proof {
                assert(items_to_map(all.take(i + 1)) == Err::<Map<Seq<char>, Seq<char>>, _>(item@));
                lemma_items_error_stays(all, i + 1);
            }
            return Err(string_of(item));
        }
        let key = string_of(&slice_of(item, 0, colon));
        let value = string_of(&slice_of(item, colon + 1, item.len()));
        proof {
            assert(item@.take(colon as int) == item@.subrange(0, colon as int));
            assert(item@.skip(colon + 1) == item@.subrange(colon + 1, item.len() as int));
        }
        m.insert(key, value);
        i += 1;
    }
    proof {
        assert(all.take(i as int) == all);
    }
    Ok(m)
}

fn list_literal(raw: &Vec<char>) -> (r: Result<Vec<String>, String>)
    ensures
        match r {
            Ok(l) => parse_list_literal(raw@) == Ok::<_, Seq<char>>(views(l@)),
            Err(t) => parse_list_literal(raw@) == Err::<Seq<Seq<char>>, _>(t@),
        },
{
    if !has_char(raw, ',') {
        return Err(string_of(raw));
    }
    let items = split_chars(raw, ',');
    Ok(strings_of(&items))
}

/// Reads a raw value.
fn classify_chars(raw: &Vec<char>) -> (v: ValueWrapper)
    ensures
        v@ == classify(raw@),
{
    if float_literal(raw) {
        return ValueWrapper::Float(string_of(raw));
    }
    if let Some(n) = read_i64(raw) {
        return ValueWrapper::Number(n);
    }
    if spells(raw, "true") {
        return ValueWrapper::Bool(true);
    }
    if spells(raw, "false") {
        return ValueWrapper::Bool(false);
    }
    if let Ok(m) = map_literal(raw) {
        return ValueWrapper::Mapping(m);
    }
    match list_literal(raw) {
        Ok(l) => ValueWrapper::Array(l),
        Err(_) => {
            let mut l: Vec<String> = Vec::new();
            l.push(string_of(raw));
            assert(views(l@) =~= seq![raw@]);
            ValueWrapper::Array(l)
        },
    }
}

fn concat_strings(a: &Vec<String>, b: &Vec<String>) -> (out: Vec<String>)
    ensures
        views(out@) == views(a@) + views(b@),
{
    let mut out: Vec<String> = Vec::new();
    let mut i: usize = 0;
    while i < a.len()
        invariant
            i <= a.len(),
            views(out@) == views(a@).take(i as int),
        decreases a.len() - i,
    {
        let s = a[i].clone();
        proof {
            lemma_views_push(out@, s);
            assert(views(a@).take(i + 1) == views(a@).take(i as int).push(a@[i as int]@));
        }
        out.push(s);
        i += 1;
    }
    let mut j: usize = 0;
    proof {
        assert(views(a@).take(i as int) == views(a@));
        assert(views(b@).take(0) == Seq::<Seq<char>>::empty());
    }
    while j < b.len()
        invariant
            j <= b.len(),
            views(out@) == views(a@) + views(b@).take(j as int),
        decreases b.len() - j,
    {
        let s = b[j].clone();
        proof {
            lemma_views_push(out@, s);
            assert(views(b@).take(j + 1) == views(b@).take(j as int).push(b@[j as int]@));
        }
        out.push(s);
        j += 1;
    }
    proof {
        assert(views(b@).take(j as int) == views(b@));
    }
    out
}

fn union_maps(a: &StringMap<String>, b: &StringMap<String>) -> (out: StringMap<String>)
    ensures
        out@ == a@.union_prefer_right(b@),
{
    let mut out: StringMap<String> = StringMap::new();
    let n = a.len();
    let mut i: usize = 0;
    while i < n
        invariant
            i <= n,
            n == a.keys().len(),
            forall|k: Seq<char>| out@.contains_key(k) <==> among(a.keys(), i as int, k),
            forall|k: Seq<char>| out@.contains_key(k) ==> out@[k] == a@[k],
        decreases n - i,
    {
        let key = a.key_at(i).clone();
        let value = a.value_at(i).clone();
        let ghost before = out@;
        out.insert(key, value);
        proof {
            assert forall|k: Seq<char>| out@.contains_key(k) <==> among(
                a.keys(),
                i + 1,
                k,
            ) by {
                if among(a.keys(), i + 1, k) {
                    let t = choose|t: int| 0 <= t < i + 1 && t < a.keys().len() && a.keys()[t] == k;
                    if t < i {
                        assert(among(a.keys(), i as int, k));
                    }
                }
                if out@.contains_key(k) && k != key@ {
                    assert(among(a.keys(), i as int, k));
                    let t = choose|t: int| 0 <= t < i && t < a.keys().len() && a.keys()[t] == k;
                    assert(0 <= t < i + 1 && a.keys()[t] == k);
                }
                if k == key@ {
                    assert(a.keys()[i as int] == k);
                }
            }
        }
        i += 1;
    }
    let m = b.len();
    let mut j: usize = 0;
    proof {
        a.lemma_keys();
        assert forall|k: Seq<char>| out@.contains_key(k) <==> a@.contains_key(k) by {
            if a@.contains_key(k) {
                assert(a.keys().contains(k));
                let t = choose|t: int| 0 <= t < a.keys().len() && a.keys()[t] == k;
                assert(0 <= t < n && t < a.keys().len() && a.keys()[t] == k);
            }
            if among(a.keys(), n as int, k) {
                let t = choose|t: int| 0 <= t < n && t < a.keys().len() && a.keys()[t] == k;
                assert(a.keys().contains(k));
            }
        }
    }
    while j < m
        invariant
            j <= m,
            m == b.keys().len(),
            forall|k: Seq<char>|
                out@.contains_key(k) <==> a@.contains_key(k) || among(b.keys(), j as int, k),
            forall|k: Seq<char>| among(b.keys(), j as int, k) ==> out@[k] == b@[k],
            forall|k: Seq<char>|
                a@.contains_key(k) && !among(b.keys(), j as int, k) ==> out@[k] == a@[k],
        decreases m - j,
    {
        let key = b.key_at(j).clone();
        let value = b.value_at(j).clone();
        out.insert(key, value);
        proof {
            assert forall|k: Seq<char>| among(b.keys(), j + 1, k) <==> among(
                b.keys(),
                j as int,
                k,
            ) || k == key@ by {
                if among(b.keys(), j + 1, k) {
                    let t = choose|t: int| 0 <= t < j + 1 && t < b.keys().len() && b.keys()[t] == k;
                    if t < j {
                        assert(among(b.keys(), j as int, k));
                    }
                }
                if among(b.keys(), j as int, k) {
                    let t = choose|t: int| 0 <= t < j && t < b.keys().len() && b.keys()[t] == k;
                    assert(0 <= t < j + 1 && b.keys()[t] == k);
                }
                if k == key@ {
                    assert(b.keys()[j as int] == k);
                }
            }
        }
        j += 1;
    }
    proof {
        b.lemma_keys();
        assert forall|k: Seq<char>| b@.contains_key(k) <==> among(b.keys(), m as int, k) by {
            if b@.contains_key(k) {
                assert(b.keys().contains(k));
                let t = choose|t: int| 0 <= t < b.keys().len() && b.keys()[t] == k;
                assert(0 <= t < m && t < b.keys().len() && b.keys()[t] == k);
            }
            if among(b.keys(), m as int, k) {
                let t = choose|t: int| 0 <= t < m && t < b.keys().len() && b.keys()[t] == k;
                assert(b.keys().contains(k));
            }
        }
        assert(out@ =~= a@.union_prefer_right(b@));
    }
    out
}

fn absorb_value(old_value: &ValueWrapper, new_value: &ValueWrapper) -> (r: Option<ValueWrapper>)
    ensures
        match r {
            Some(v) => absorb(old_value@, new_value@) == Some(v@),
            None => absorb(old_value@, new_value@) is None,
        },
{
    match (old_value, new_value) {
        (ValueWrapper::Array(a), ValueWrapper::Array(b)) => Some(
            ValueWrapper::Array(concat_strings(a, b)),
        ),
        (ValueWrapper::Mapping(a), ValueWrapper::Mapping(b)) => Some(
            ValueWrapper::Mapping(union_maps(a, b)),
        ),
        _ => None,
    }
}

impl ValueWrapper {
    /// Reads an attribute string. It fails only where a key comes again with
    /// a value that cannot be merged into the one it holds; the error is
    /// `Format` and carries the first such key.
    pub fn from(src: &str) -> (r: DocResult<Config>)
        ensures
            match r {
                Ok(c) => parse_config(src@) == Ok::<_, Seq<char>>(c@),
                Err(e) => e matches DocError::SoftError(ErrorType::Format(k))
                    && parse_config(src@) == Err::<Map<Seq<char>, Value>, _>(k@),
            },
    {
        let text = chars_of(src);
        let clauses = split_chars(&text, ';');
        let mut acc: Config = StringMap::new();
        let mut i: usize = 0;
        proof {
            assert(views(clauses@).skip(0) == views(clauses@));
        }
        while i < clauses.len()
            invariant
                i <= clauses.len(),
                parse_config(src@) == fold_clauses(acc@, views(clauses@).skip(i as int)),
            decreases clauses.len() - i,
        {
            let clause = &clauses[i];
            let eq = find_char(clause, '=');
            let key = string_of(&slice_of(clause, 0, eq));
            let value = if eq < clause.len() {
                classify_chars(&slice_of(clause, eq + 1, clause.len()))
            } else {
                ValueWrapper::Bool(true)
            };
            proof {
                let rest = views(clauses@).skip(i as int);
                assert(rest[0] == clause@);
                assert(rest.drop_first() == views(clauses@).skip(i + 1));
                assert(clause@.take(eq as int) == clause@.subrange(0, eq as int));
                assert(clause@.skip(eq + 1) == clause@.subrange(eq + 1, clause.len() as int));
                assert(key@ == clause_key(clause@));
                assert(value@ == clause_value(clause@));
            }
            let merged = match acc.get(key.as_str()) {
                None => Some(value),
                Some(held) => absorb_value(held, &value),
            };
            match merged {
                Some(v) => {
                    acc.insert(key, v);
                },
                None => {
                    return ErrorType::format_error(key);
                },
            }
            i += 1;
        }
        Ok(acc)
    }

    /// Reads a list literal. A value without `,` is refused as malformed,
    /// and the error carries it.
    pub fn parse_vec(value: &str) -> (r: DocResult<Vec<String>>)
        ensures
            match r {
                Ok(l) => parse_list_literal(value@) == Ok::<_, Seq<char>>(views(l@)),
                Err(e) => e matches DocError::SoftError(ErrorType::Format(t))
                    && parse_list_literal(value@) == Err::<Seq<Seq<char>>, _>(t@),
            },
    {
        match list_literal(&chars_of(value)) {
            Ok(l) => Ok(l),
            Err(t) => ErrorType::format_error(t),
        }
    }

    /// Reads a map literal. A value without `,`, or with an item without `:`,
    /// is refused as malformed, and the error carries the text that was refused.
    pub fn parse_map(value: &str) -> (r: DocResult<StringMap<String>>)
        ensures
            match r {
                Ok(m) => parse_map_literal(value@) == Ok::<_, Seq<char>>(m@),
                Err(e) => e matches DocError::SoftError(ErrorType::Format(t))
                    && parse_map_literal(value@) == Err::<Map<Seq<char>, Seq<char>>, _>(t@),
            },
    {
        match map_literal(&chars_of(value)) {
            Ok(m) => Ok(m),
            Err(t) => ErrorType::format_error(t),
        }
    }

    /// Reads one raw value. Every text writes some value.
    pub fn parse_value(raw: &str) -> (v: ValueWrapper)
        ensures
            v@ == classify(raw@),
    {
        classify_chars(&chars_of(raw))
    }
}

/// The keys that the clauses of an attribute string name.
pub open spec fn clause_keys(s: Seq<char>) -> Set<Seq<char>> {
    keys_of(split(s, ';'))
}

/// The keys that the clauses name.
pub open spec fn keys_of(clauses: Seq<Seq<char>>) -> Set<Seq<char>> {
    Set::new(
        |k: Seq<char>| exists|i: int| 0 <= i < clauses.len() && clause_key(#[trigger] clauses[i]) == k,
    )
}

/// Two results as one: the first error, or both configurations together.
pub open spec fn join(
    first: Result<Map<Seq<char>, Value>, Seq<char>>,
    second: Result<Map<Seq<char>, Value>, Seq<char>>,
) -> Result<Map<Seq<char>, Value>, Seq<char>> {
    match first {
        Err(key) => Err(key),
        Ok(a) => match second {
            Err(key) => Err(key),
            Ok(b) => Ok(a.union_prefer_right(b)),
        },
    }
}

proof fn lemma_fold_concat(acc: Map<Seq<char>, Value>, first: Seq<Seq<char>>, second: Seq<Seq<char>>)
    ensures
        fold_clauses(acc, first + second) == match fold_clauses(acc, first) {
            Err(key) => Err(key),
            Ok(m) => fold_clauses(m, second),
        },
    decreases first.len(),
{
    if first.len() == 0 {
        assert(first + second == second);
    } else {
        let all = first + second;
        assert(all[0] == first[0]);
        assert(all.drop_first() == first.drop_first() + second);
        match merge(acc, clause_key(first[0]), clause_value(first[0])) {
            Err(_) => {},
            Ok(next) => {
                lemma_fold_concat(next, first.drop_first(), second);
            },
        }
    }
}

/// A configuration holds no key but those it began with and those of its clauses.
proof fn lemma_fold_keys(acc: Map<Seq<char>, Value>, clauses: Seq<Seq<char>>)
    ensures
        fold_clauses(acc, clauses) matches Ok(m) ==> forall|k: Seq<char>| #[trigger]
            m.contains_key(k) ==> acc.contains_key(k) || keys_of(clauses).contains(k),
    decreases clauses.len(),
{
    if clauses.len() > 0 {
        match merge(acc, clause_key(clauses[0]), clause_value(clauses[0])) {
            Err(_) => {},
            Ok(next) => {
                let rest = clauses.drop_first();
                lemma_fold_keys(next, rest);
                if let Ok(m) = fold_clauses(next, rest) {
                    assert forall|k: Seq<char>| #[trigger] m.contains_key(k) implies acc.contains_key(
                        k,
                    ) || keys_of(clauses).contains(k) by {
                        if keys_of(rest).contains(k) {
                            let i = choose|i: int|
                                0 <= i < rest.len() && clause_key(#[trigger] rest[i]) == k;
                            assert(clause_key(clauses[i + 1]) == k);
                        } else if !acc.contains_key(k) {
                            assert(clause_key(clauses[0]) == k);
                        }
                    }
                }
            },
        }
    }
}

/// Keys that no clause names pass through the clauses untouched.
proof fn lemma_fold_frame(
    kept: Map<Seq<char>, Value>,
    acc: Map<Seq<char>, Value>,
    clauses: Seq<Seq<char>>,
)
    requires
        forall|k: Seq<char>| kept.contains_key(k) ==> !keys_of(clauses).contains(k),
    ensures
        fold_clauses(kept.union_prefer_right(acc), clauses) == match fold_clauses(acc, clauses) {
            Err(key) => Err(key),
            Ok(m) => Ok(kept.union_prefer_right(m)),
        },
    decreases clauses.len(),
{
    if clauses.len() > 0 {
        let key = clause_key(clauses[0]);
        let value = clause_value(clauses[0]);
        let rest = clauses.drop_first();
        assert(keys_of(clauses).contains(key));
        assert(!kept.contains_key(key));
        match merge(acc, key, value) {
            Err(_) => {},
            Ok(next) => {
                assert(merge(kept.union_prefer_right(acc), key, value) == Ok::<_, Seq<char>>(
                    kept.union_prefer_right(next),
                )) by {
                    if acc.contains_key(key) {
                        let merged = absorb(acc[key], value)->0;
                        assert(kept.union_prefer_right(acc).insert(key, merged)
                            =~= kept.union_prefer_right(next));
                    } else {
                        assert(kept.union_prefer_right(acc).insert(key, value)
                            =~= kept.union_prefer_right(next));
                    }
                }
                assert forall|k: Seq<char>| kept.contains_key(k) implies !keys_of(rest).contains(
                    k,
                ) by {
                    if keys_of(rest).contains(k) {
                        let i = choose|i: int|
                            0 <= i < rest.len() && clause_key(#[trigger] rest[i]) == k;
                        assert(clause_key(clauses[i + 1]) == k);
                    }
                }
                lemma_fold_frame(kept, next, rest);
            },
        }
    } else {
    }
}

/// Two attribute strings that name no key in common, written one after the
/// other with `;` between them, write what each writes alone, taken together;
/// where one of them fails, so does the whole, with the first error.
pub proof fn lemma_parse_disjoint(s1: Seq<char>, s2: Seq<char>)
    requires
        clause_keys(s1).disjoint(clause_keys(s2)),
    ensures
        parse_config(s1 + seq![';'] + s2) == join(parse_config(s1), parse_config(s2)),
{
    let first = split(s1, ';');
    let second = split(s2, ';');
    let empty = Map::<Seq<char>, Value>::empty();
    crate::text::lemma_split_concat(s1, s2, ';');
    lemma_fold_concat(empty, first, second);
    if let Ok(a) = fold_clauses(empty, first) {
        lemma_fold_keys(empty, first);
        assert forall|k: Seq<char>| a.contains_key(k) implies !keys_of(second).contains(k) by {
            assert(clause_keys(s1).contains(k));
        }
        lemma_fold_frame(a, empty, second);
        assert(a.union_prefer_right(empty) =~= a);
    }
}

} // verus!
