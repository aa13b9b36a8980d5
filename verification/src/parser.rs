//! The grammar parser and the nested-value assembler.
//!
//! The parser consumes tokens following the `key=value(&key=value)*`
//! grammar and emits one key/value pair per cycle.  A token that breaks the
//! grammar surfaces as a typed [`Error::MalformedInput`] carrying the index
//! of the offending token, never as a crash.

use vstd::prelude::*;

use crate::error::Error;
use crate::lexer::{Lexer, Token, TokenV, lex_root};

verus! {

/// One raw `key=value` pair; the key is the undecomposed path text as it
/// appeared before the `=`.
#[derive(Debug, Clone, PartialEq, Eq)]
pub struct KeyValue {
    pub key: String,
    pub value: String,
}

impl View for KeyValue {
    type V = (Seq<char>, Seq<char>);

    open spec fn view(&self) -> (Seq<char>, Seq<char>) {
        (self.key@, self.value@)
    }
}

impl KeyValue {
    pub fn new(key: String, value: String) -> (r: Self)
        ensures
            r.key == key,
            r.value == value,
    {
        KeyValue { key, value }
    }
}

/// The pairs denoted by a token sequence, starting at a pair boundary.
///
/// An error carries the index of the first token that breaks the grammar;
/// the index just past the last token stands for an input that ends in the
/// middle of a pair.
pub open spec fn parse_toks(t: Seq<TokenV>) -> Result<Seq<(Seq<char>, Seq<char>)>, int>
    decreases t.len(),
{
    if t.len() == 0 {
        Ok(Seq::empty())
    } else if !(t[0] is Literal) {
        Err(0)
    } else if t.len() == 1 {
        Err(1)
    } else if !(t[1] is Assign) {
        Err(1)
    } else if t.len() == 2 {
        Err(2)
    } else if !(t[2] is Literal) {
        Err(2)
    } else {
        let pair = (t[0]->Literal_0, t[2]->Literal_0);
        if t.len() == 3 {
            Ok(seq![pair])
        } else if t[3] is Ampersand {
            match parse_toks(t.skip(4)) {
                Ok(rest) => Ok(seq![pair] + rest),
                Err(e) => Err(e + 4),
            }
        } else {
            Err(3)
        }
    }
}

/// The pairs denoted by a token sequence, starting right after a pair:
/// either the input ends, or an `&` introduces the next pair.
pub open spec fn parse_sep(t: Seq<TokenV>) -> Result<Seq<(Seq<char>, Seq<char>)>, int> {
    if t.len() == 0 {
        Ok(Seq::empty())
    } else if t[0] is Ampersand {
        match parse_toks(t.skip(1)) {
            Ok(rest) => Ok(rest),
            Err(e) => Err(e + 1),
        }
    } else {
        Err(0)
    }
}

/// Shifts the error position of a parse outcome by `k` tokens.
pub open spec fn shift_err(r: Result<Seq<(Seq<char>, Seq<char>)>, int>, k: int) -> Result<
    Seq<(Seq<char>, Seq<char>)>,
    int,
> {
    match r {
        Ok(p) => Ok(p),
        Err(e) => Err(e + k),
    }
}

/// The streaming grammar parser.
///
/// `tok_idx` counts the tokens already consumed, so that a grammar error
/// can report the absolute index of the offending token.  `after_pair` is
/// true between a produced pair and the separator that must follow it.
pub struct Parser<'a> {
    pub lexer: Lexer<'a>,
    pub after_pair: bool,
    pub tok_idx: usize,
}

impl<'a> Parser<'a> {
    pub open spec fn wf(self) -> bool {
        self.lexer.wf() && self.tok_idx <= self.lexer.pos
    }

    /// The outcome of parsing everything not yet consumed, with error
    /// positions absolute in the whole input.
    pub open spec fn pending(self) -> Result<Seq<(Seq<char>, Seq<char>)>, int> {
        if self.after_pair {
            shift_err(parse_sep(self.lexer.remaining()), self.tok_idx as int)
        } else {
            shift_err(parse_toks(self.lexer.remaining()), self.tok_idx as int)
        }
    }

    pub fn new(input: &'a str) -> (r: Self)
        ensures
            r.wf(),
            r.lexer.input == input,
            r.pending() == parse_toks(lex_root(input@)),
    {
        Parser { lexer: Lexer::new(input), after_pair: false, tok_idx: 0 }
    }

    /// Produces the next pair, a typed grammar error, or `None` at the end
    /// of a well-formed input.
    pub fn next_pair(&mut self) -> (r: Option<Result<KeyValue, Error>>)
        requires
            old(self).wf(),
        ensures
            final(self).wf(),
            final(self).lexer.input == old(self).lexer.input,
            match r {
                None => old(self).pending() == Ok::<_, int>(Seq::<(Seq<char>, Seq<char>)>::empty())
                    && final(self).pending() == old(self).pending(),
                Some(rr) => match rr {
                    Ok(kv) => ({
                        &&& final(self).lexer.pos > old(self).lexer.pos
                        &&& final(self).after_pair
                        &&& old(self).lexer.remaining() == (if old(self).after_pair {
                            seq![TokenV::Ampersand]
                        } else {
                            Seq::<TokenV>::empty()
                        }) + seq![
                            TokenV::Literal(kv.key@),
                            TokenV::Assign,
                            TokenV::Literal(kv.value@),
                        ] + final(self).lexer.remaining()
                        &&& match final(self).pending() {
                            Ok(rest) => old(self).pending() == Ok::<_, int>(seq![kv@] + rest),
                            Err(e) => old(self).pending() == Err::<Seq<(Seq<char>, Seq<char>)>, _>(
                                e,
                            ),
                        }
                    }),
                    Err(err) => ({
                        &&& old(self).pending() is Err
                        &&& err == Error::MalformedInput(old(self).pending()->Err_0 as usize)
                    }),
                },
            },
    {
        if self.after_pair {
            let ghost pre = *self;
            proof {
                assert(pre == *old(self));
            }
            match self.lexer.next_token() {
                None => {
                    return None;
                },
                Some(tok) => {
                    proof {
                        assert(pre.lexer.remaining() == seq![tok@] + self.lexer.remaining());
                        assert(self.lexer.remaining() =~= pre.lexer.remaining().skip(1));
                    }
                    match tok {
                        Token::Ampersand => {
                            self.tok_idx = self.tok_idx + 1;
                            self.after_pair = false;
                        },
                        _ => {
                            return Some(Err(Error::MalformedInput(self.tok_idx)));
                        },
                    }
                },
            }
        }
        // At a pair boundary: expect a key literal.
        let ghost toks = self.lexer.remaining();
        let key = match self.lexer.next_token() {
            None => {
                return None;
            },
            Some(tok) => {
                proof {
                    assert(self.lexer.remaining() =~= toks.skip(1));
                }
                match tok {
                    Token::Literal(k) => {
                        self.tok_idx = self.tok_idx + 1;
                        k
                    },
                    _ => {
                        return Some(Err(Error::MalformedInput(self.tok_idx)));
                    },
                }
            },
        };
        // Expect the `=`.
        match self.lexer.next_token() {
            None => {
                return Some(Err(Error::MalformedInput(self.tok_idx)));
            },
            Some(tok) => {
                proof {
                    assert(self.lexer.remaining() =~= toks.skip(2));
                    assert(toks[1] == tok@);
                }
                match tok {
                    Token::Assign => {
                        self.tok_idx = self.tok_idx + 1;
                    },
                    _ => {
                        return Some(Err(Error::MalformedInput(self.tok_idx)));
                    },
                }
            },
        }
        // Expect the value literal.
        let value = match self.lexer.next_token() {
            None => {
                return Some(Err(Error::MalformedInput(self.tok_idx)));
            },
            Some(tok) => {
                proof {
                    assert(self.lexer.remaining() =~= toks.skip(3));
                    assert(toks[2] == tok@);
                }
                match tok {
                    Token::Literal(v) => {
                        self.tok_idx = self.tok_idx + 1;
                        v
                    },
                    _ => {
                        return Some(Err(Error::MalformedInput(self.tok_idx)));
                    },
                }
            },
        };
        self.after_pair = true;
        let kv = KeyValue { key, value };
        proof {
            let rest = self.lexer.remaining();
            assert(rest =~= toks.skip(3));
            if rest.len() == 0 {
                assert(toks.len() == 3);
            } else {
                assert(toks[3] == rest[0]);
                assert(toks.skip(4) =~= rest.skip(1));
            }
            assert(toks =~= seq![
                TokenV::Literal(kv.key@),
                TokenV::Assign,
                TokenV::Literal(kv.value@),
            ] + rest);
            if old(self).after_pair {
                assert(old(self).lexer.remaining() =~= seq![TokenV::Ampersand] + seq![
                    TokenV::Literal(kv.key@),
                    TokenV::Assign,
                    TokenV::Literal(kv.value@),
                ] + rest);
            } else {
                assert(old(self).lexer.remaining() =~= Seq::<TokenV>::empty() + seq![
                    TokenV::Literal(kv.key@),
                    TokenV::Assign,
                    TokenV::Literal(kv.value@),
                ] + rest);
            }
        }
        Some(Ok(kv))
    }
}

/// The spec-level decode tree: a leaf of text, or an unordered mapping
/// from path segment to subtree.
pub enum ValueV {
    Single(Seq<char>),
    Mapping(Map<Seq<char>, ValueV>),
}

/// One node of the decode tree.
///
/// Both struct-like and sequence-like composites are `Mapping` nodes; a
/// sequence holds its elements under the keys `"0"`, `"1"`, … plus the
/// reserved key `"$length"`.  Lookups go by key, never by position.
#[derive(Debug, PartialEq, Eq)]
pub enum Value {
    Single(String),
    Mapping(ValueMap),
}

/// The entries of a `Map` node, keyed uniquely.
#[derive(Debug, PartialEq, Eq)]
pub struct ValueMap(pub Vec<(String, Value)>);

pub open spec fn value_view(v: Value) -> ValueV
    decreases v,
{
    match v {
        Value::Single(s) => ValueV::Single(s@),
        Value::Mapping(m) => ValueV::Mapping(entries_view(m.0@)),
    }
}

/// The mapping denoted by an entry list; a repeated key would keep its
/// last entry, but well-formed nodes never repeat a key.
pub open spec fn entries_view(es: Seq<(String, Value)>) -> Map<Seq<char>, ValueV>
    decreases es,
{
    if es.len() == 0 {
        Map::empty()
    } else {
        entries_view(es.drop_last()).insert(es.last().0@, value_view(es.last().1))
    }
}

pub open spec fn value_inv(v: Value) -> bool
    decreases v,
{
    match v {
        Value::Single(_) => true,
        Value::Mapping(m) => entries_inv(m.0@),
    }
}

/// Keys are unique and every child is well formed.
pub open spec fn entries_inv(es: Seq<(String, Value)>) -> bool
    decreases es,
{
    &&& forall|i: int, j: int|
        0 <= i < j < es.len() ==> (#[trigger] es[i]).0@ != (#[trigger] es[j]).0@
    &&& forall|i: int| 0 <= i < es.len() ==> value_inv((#[trigger] es[i]).1)
}

impl View for Value {
    type V = ValueV;

    open spec fn view(&self) -> ValueV {
        value_view(*self)
    }
}

impl View for ValueMap {
    type V = Map<Seq<char>, ValueV>;

    open spec fn view(&self) -> Map<Seq<char>, ValueV> {
        entries_view(self.0@)
    }
}

impl Value {
    pub open spec fn inv(self) -> bool {
        value_inv(self)
    }
}

impl ValueMap {
    pub open spec fn inv(self) -> bool {
        entries_inv(self.0@)
    }
}

/// A key is in the mapping exactly when some entry holds it.
pub proof fn lemma_entries_view_contains(es: Seq<(String, Value)>, k: Seq<char>)
    ensures
        entries_view(es).contains_key(k) <==> exists|i: int| 0 <= i < es.len() && (#[trigger] es[i]).0@ == k,
    decreases es.len(),
{
    if es.len() > 0 {
        lemma_entries_view_contains(es.drop_last(), k);
        if es.last().0@ == k {
            assert(es[es.len() - 1].0@ == k);
        } else if entries_view(es).contains_key(k) {
            let i = choose|i: int| 0 <= i < es.drop_last().len() && (#[trigger] es.drop_last()[i]).0@ == k;
            assert(es[i].0@ == k);
        } else {
            assert forall|i: int| 0 <= i < es.len() implies (#[trigger] es[i]).0@ != k by {
                if i < es.len() - 1 {
                    assert(es.drop_last()[i] == es[i]);
                }
            }
        }
    }
}

/// With unique keys, the mapping sends each entry's key to that entry's
/// subtree.
pub proof fn lemma_entries_view_find(es: Seq<(String, Value)>, i: int)
    requires
        forall|p: int, q: int|
            0 <= p < q < es.len() ==> (#[trigger] es[p]).0@ != (#[trigger] es[q]).0@,
        0 <= i < es.len(),
    ensures
        entries_view(es).contains_key(es[i].0@),
        entries_view(es)[es[i].0@] == value_view(es[i].1),
    decreases es.len(),
{
    if i == es.len() - 1 {
        assert(es.last() == es[i]);
    } else {
        assert(es.drop_last()[i] == es[i]);
        lemma_entries_view_find(es.drop_last(), i);
        assert(es.last().0@ != es[i].0@);
    }
}

/// With unique keys, removing the entry of a key removes exactly that key
/// from the mapping.
pub proof fn lemma_entries_view_remove(es: Seq<(String, Value)>, i: int)
    requires
        forall|p: int, q: int|
            0 <= p < q < es.len() ==> (#[trigger] es[p]).0@ != (#[trigger] es[q]).0@,
        0 <= i < es.len(),
    ensures
        entries_view(es.remove(i)) == entries_view(es).remove(es[i].0@),
    decreases es.len(),
{
    let k = es[i].0@;
    if i == es.len() - 1 {
        assert(es.remove(i) =~= es.drop_last());
        lemma_entries_view_contains(es.drop_last(), k);
        assert forall|p: int| 0 <= p < es.drop_last().len() implies (#[trigger] es.drop_last()[p]).0@ != k by {
            assert(es.drop_last()[p] == es[p]);
        }
        assert(!entries_view(es.drop_last()).contains_key(k));
        assert(entries_view(es.drop_last()) =~= entries_view(es.drop_last()).insert(
            k,
            value_view(es.last().1),
        ).remove(k));
    } else {
        assert(es.remove(i).drop_last() =~= es.drop_last().remove(i));
        assert(es.remove(i).last() == es.last());
        assert forall|p: int, q: int|
            0 <= p < q < es.drop_last().len() implies (#[trigger] es.drop_last()[p]).0@
            != (#[trigger] es.drop_last()[q]).0@ by {
            assert(es.drop_last()[p] == es[p]);
            assert(es.drop_last()[q] == es[q]);
        }
        assert(es.drop_last()[i] == es[i]);
        lemma_entries_view_remove(es.drop_last(), i);
        assert(es.last().0@ != k);
        assert(entries_view(es.drop_last()).remove(k).insert(
            es.last().0@,
            value_view(es.last().1),
        ) =~= entries_view(es.drop_last()).insert(es.last().0@, value_view(es.last().1)).remove(
            k,
        ));
    }
}

/// The path segments of a key, split on `.` from the left, `cur` being
/// the segment under construction.
pub open spec fn split_acc(s: Seq<char>, cur: Seq<char>) -> Seq<Seq<char>>
    decreases s.len(),
{
    if s.len() == 0 {
        seq![cur]
    } else if s[0] == '.' {
        seq![cur] + split_acc(s.skip(1), Seq::empty())
    } else {
        split_acc(s.skip(1), cur.push(s[0]))
    }
}

/// The `.`-separated segments of a key; empty segments are kept.
pub open spec fn spec_split_path(s: Seq<char>) -> Seq<Seq<char>> {
    split_acc(s, Seq::empty())
}

/// The views of a segment list.
pub open spec fn segs(p: Seq<String>) -> Seq<Seq<char>> {
    p.map_values(|s: String| s@)
}

/// The views of a pair list.
pub open spec fn pairs_view(ps: Seq<KeyValue>) -> Seq<(Seq<char>, Seq<char>)> {
    ps.map_values(|kv: KeyValue| kv@)
}

/// Setting `value` under `path`: descend or create `Map` nodes for all but
/// the last segment, then bind the last segment to a leaf.  A node that is
/// currently a leaf but must be descended through is silently replaced by
/// a fresh `Map`, as the assembler has always done.
pub open spec fn spec_set(v: ValueV, path: Seq<Seq<char>>, value: Seq<char>) -> ValueV
    decreases path.len(),
{
    if path.len() == 0 {
        ValueV::Single(value)
    } else {
        let m0 = if v is Mapping {
            v->Mapping_0
        } else {
            Map::empty()
        };
        let child = if m0.contains_key(path[0]) {
            m0[path[0]]
        } else {
            ValueV::Mapping(Map::empty())
        };
        ValueV::Mapping(m0.insert(path[0], spec_set(child, path.skip(1), value)))
    }
}

/// Looking `path` up in a tree, segment by segment.
pub open spec fn spec_get(v: ValueV, path: Seq<Seq<char>>) -> Option<ValueV>
    decreases path.len(),
{
    if path.len() == 0 {
        Some(v)
    } else {
        match v {
            ValueV::Single(_) => None,
            ValueV::Mapping(m) => if m.contains_key(path[0]) {
                spec_get(m[path[0]], path.skip(1))
            } else {
                None
            },
        }
    }
}

/// The tree assembled from an ordered pair sequence, folded left to right.
pub open spec fn assemble(pairs: Seq<(Seq<char>, Seq<char>)>) -> ValueV
    decreases pairs.len(),
{
    if pairs.len() == 0 {
        ValueV::Mapping(Map::empty())
    } else {
        spec_set(assemble(pairs.drop_last()), spec_split_path(pairs.last().0), pairs.last().1)
    }
}

impl ValueMap {
    /// The position of `key` among the entries.
    fn find_idx(&self, key: &str) -> (r: Option<usize>)
        ensures
            match r {
                Some(i) => i < self.0@.len() && self.0@[i as int].0@ == key@,
                None => forall|i: int| 0 <= i < self.0@.len() ==> (#[trigger] self.0@[i]).0@ != key@,
            },
    {
        let mut i: usize = 0;
        while i < self.0.len()
            invariant
                i <= self.0@.len(),
                forall|j: int| 0 <= j < i ==> (#[trigger] self.0@[j]).0@ != key@,
            decreases self.0@.len() - i,
        {
            if crate::text::str_eq(self.0[i].0.as_str(), key) {
                return Some(i);
            }
            i = i + 1;
        }
        None
    }

    /// Removes and returns the entry of `key`, if present.
    pub fn take(&mut self, key: &str) -> (r: Option<(String, Value)>)
        requires
            old(self).inv(),
        ensures
            final(self).inv(),
            match r {
                Some(kv) => {
                    &&& old(self)@.contains_key(key@)
                    &&& kv.0@ == key@
                    &&& value_view(kv.1) == old(self)@[key@]
                    &&& value_inv(kv.1)
                    &&& final(self)@ == old(self)@.remove(key@)
                },
                None => !old(self)@.contains_key(key@) && *final(self) == *old(self),
            },
    {
        proof {
            lemma_entries_view_contains(self.0@, key@);
        }
        match self.find_idx(key) {
            Some(i) => {
                proof {
                    lemma_entries_view_find(self.0@, i as int);
                    lemma_entries_view_remove(self.0@, i as int);
                }
                let ghost pre = self.0@;
                let kv = self.0.remove(i);
                proof {
                    assert forall|p: int, q: int|
                        0 <= p < q < self.0@.len() implies (#[trigger] self.0@[p]).0@
                        != (#[trigger] self.0@[q]).0@ by {
                        assert(self.0@[p] == if p < i { pre[p] } else { pre[p + 1] });
                        assert(self.0@[q] == if q < i { pre[q] } else { pre[q + 1] });
                    }
                    assert forall|p: int| 0 <= p < self.0@.len() implies value_inv(
                        (#[trigger] self.0@[p]).1,
                    ) by {
                        assert(self.0@[p] == if p < i { pre[p] } else { pre[p + 1] });
                    }
                }
                Some(kv)
            },
            None => None,
        }
    }

    /// Looks `path` up among the entries and below; the empty path finds
    /// nothing.
    pub fn borrow(&self, path: &[String]) -> (r: Option<&Value>)
        requires
            self.inv(),
        ensures
            match r {
                Some(w) => path@.len() > 0 && spec_get(ValueV::Mapping(self@), segs(path@))
                    == Some(w@) && w.inv(),
                None => path@.len() == 0 || spec_get(ValueV::Mapping(self@), segs(path@)) is None,
            },
    {
        if path.len() == 0 {
            return None;
        }
        proof {
            lemma_entries_view_contains(self.0@, path@[0]@);
        }
        match self.find_idx(path[0].as_str()) {
            None => None,
            Some(j) => {
                proof {
                    lemma_entries_view_find(self.0@, j as int);
                    assert(segs(path@).skip(1) =~= segs(path@.skip(1)));
                }
                borrow_in(&self.0[j].1, path, 1)
            },
        }
    }

    /// Replaces the subtree under `path` (which must name at least one
    /// segment) by a leaf holding `value`.
    pub fn set(&mut self, path: &[String], value: String)
        requires
            old(self).inv(),
            path@.len() > 0,
        ensures
            final(self).inv(),
            ValueV::Mapping(final(self)@) == spec_set(
                ValueV::Mapping(old(self)@),
                segs(path@),
                value@,
            ),
    {
        let mut tmp = ValueMap(Vec::new());
        core::mem::swap(self, &mut tmp);
        let v = set_in(Value::Mapping(tmp), path, 0, value);
        proof {
            assert(segs(path@).skip(0) =~= segs(path@));
        }
        match v {
            Value::Mapping(m) => {
                *self = m;
            },
            Value::Single(_) => {
                proof {
                    assert(false);
                }
            },
        }
    }
}

/// Looks the suffix `path[i..]` up in `v`.
fn borrow_in<'a>(v: &'a Value, path: &[String], i: usize) -> (r: Option<&'a Value>)
    requires
        v.inv(),
        i <= path@.len(),
    ensures
        match r {
            Some(w) => spec_get(v@, segs(path@).skip(i as int)) == Some(w@) && w.inv(),
            None => spec_get(v@, segs(path@).skip(i as int)) is None,
        },
    decreases path@.len() - i,
{
    if i == path.len() {
        proof {
            assert(segs(path@).skip(i as int) =~= Seq::<Seq<char>>::empty());
        }
        return Some(v);
    }
    match v {
        Value::Single(_) => None,
        Value::Mapping(m) => {
            proof {
                lemma_entries_view_contains(m.0@, path@[i as int]@);
            }
            match m.find_idx(path[i].as_str()) {
                None => None,
                Some(j) => {
                    proof {
                        lemma_entries_view_find(m.0@, j as int);
                        assert(segs(path@).skip(i as int).skip(1) =~= segs(path@).skip(i + 1));
                    }
                    borrow_in(&m.0[j].1, path, i + 1)
                },
            }
        },
    }
}

/// Sets `value` under the suffix `path[i..]` of `v`, returning the new
/// tree.
fn set_in(v: Value, path: &[String], i: usize, value: String) -> (r: Value)
    requires
        v.inv(),
        i <= path@.len(),
    ensures
        r.inv(),
        r@ == spec_set(v@, segs(path@).skip(i as int), value@),
    decreases path@.len() - i,
{
    if i == path.len() {
        proof {
            assert(segs(path@).skip(i as int) =~= Seq::<Seq<char>>::empty());
        }
        return Value::Single(value);
    }
    let ghost v0 = v;
    let mut m = match v {
        Value::Mapping(m) => m,
        Value::Single(_) => ValueMap(Vec::new()),
    };
    let ghost m0 = if v0@ is Mapping {
        v0@->Mapping_0
    } else {
        Map::<Seq<char>, ValueV>::empty()
    };
    proof {
        assert(m@ =~= m0);
    }
    let key: &String = &path[i];
    let taken = m.take(key.as_str());
    let child = match taken {
        Some(kv) => kv.1,
        None => Value::Mapping(ValueMap(Vec::new())),
    };
    proof {
        assert(segs(path@).skip(i as int)[0] == key@);
        assert(segs(path@).skip(i as int).skip(1) =~= segs(path@).skip(i + 1));
    }
    let new_child = set_in(child, path, i + 1, value);
    let ghost pre_push = m.0@;
    m.0.push((key.clone(), new_child));
    proof {
        assert(m.0@.drop_last() =~= pre_push);
        // The key was removed before the push, so the entry list stays
        // uniquely keyed.
        lemma_entries_view_contains(pre_push, key@);
        assert forall|p: int, q: int|
            0 <= p < q < m.0@.len() implies (#[trigger] m.0@[p]).0@ != (#[trigger] m.0@[q]).0@ by {
            if q < m.0@.len() - 1 {
                assert(m.0@[p] == pre_push[p]);
                assert(m.0@[q] == pre_push[q]);
            } else {
                assert(m.0@[q].0@ == key@);
                if p < m.0@.len() - 1 {
                    assert(m.0@[p] == pre_push[p]);
                }
            }
        }
        assert forall|p: int| 0 <= p < m.0@.len() implies value_inv((#[trigger] m.0@[p]).1) by {
            if p < m.0@.len() - 1 {
                assert(m.0@[p] == pre_push[p]);
            }
        }
        assert(entries_view(m.0@) =~= m0.insert(key@, new_child@));
    }
    Value::Mapping(m)
}

impl Value {
    /// An empty composite node.
    pub fn map() -> (r: Value)
        ensures
            r@ == ValueV::Mapping(Map::<Seq<char>, ValueV>::empty()),
            r.inv(),
    {
        Value::Mapping(ValueMap(Vec::new()))
    }

    /// Replaces the subtree under `path` by a leaf holding `value`; the
    /// empty path replaces this whole node.
    pub fn set(&mut self, path: &[String], value: String)
        requires
            old(self).inv(),
        ensures
            final(self).inv(),
            final(self)@ == spec_set(old(self)@, segs(path@), value@),
    {
        let mut tmp = Value::Single(String::new());
        core::mem::swap(self, &mut tmp);
        let r = set_in(tmp, path, 0, value);
        proof {
            assert(segs(path@).skip(0) =~= segs(path@));
        }
        *self = r;
    }

    /// Looks `path` up below this node; the empty path finds this node.
    pub fn borrow(&self, path: &[String]) -> (r: Option<&Value>)
        requires
            self.inv(),
        ensures
            match r {
                Some(w) => spec_get(self@, segs(path@)) == Some(w@) && w.inv(),
                None => spec_get(self@, segs(path@)) is None,
            },
    {
        proof {
            assert(segs(path@).skip(0) =~= segs(path@));
        }
        borrow_in(self, path, 0)
    }

    /// The leaf text, if this node is a leaf.
    pub fn try_as_single(self) -> (r: Option<String>)
        ensures
            match r {
                Some(s) => self@ == ValueV::Single(s@),
                None => self@ is Mapping,
            },
    {
        if let Value::Single(val) = self {
            return Some(val);
        }
        None
    }

    /// The leaf text, if this node is a leaf.
    pub fn try_as_ref_single(&self) -> (r: Option<&String>)
        ensures
            match r {
                Some(s) => self@ == ValueV::Single(s@),
                None => self@ is Mapping,
            },
    {
        if let Value::Single(val) = self {
            return Some(val);
        }
        None
    }

    /// The entries, if this node is a composite.
    pub fn try_as_map(self) -> (r: Option<ValueMap>)
        requires
            self.inv(),
        ensures
            match r {
                Some(m) => self@ == ValueV::Mapping(m@) && m.inv(),
                None => self@ is Single,
            },
    {
        if let Value::Mapping(val) = self {
            return Some(val);
        }
        None
    }

    /// The entries, if this node is a composite.
    pub fn try_as_mut_map(&mut self) -> (r: Option<&mut ValueMap>)
        ensures
            match r {
                Some(m) => old(self)@ == ValueV::Mapping((*m)@) && *final(self) == Value::Mapping(
                    *final(m),
                ),
                None => old(self)@ is Single && *final(self) == *old(self),
            },
    {
        if let Value::Mapping(val) = self {
            return Some(val);
        }
        None
    }

    /// Folds an ordered pair sequence into one nested tree, splitting each
    /// key on `.`.
    pub fn from_pairs(pairs: &Vec<KeyValue>) -> (r: Value)
        ensures
            r.inv(),
            r@ == assemble(pairs_view(pairs@)),
    {
        let mut v = Value::map();
        let mut i: usize = 0;
        while i < pairs.len()
            invariant
                i <= pairs@.len(),
                v.inv(),
                v@ == assemble(pairs_view(pairs@).take(i as int)),
            decreases pairs@.len() - i,
        {
            let path = split_key(pairs[i].key.as_str());
            v.set(path.as_slice(), pairs[i].value.clone());
            proof {
                let pv = pairs_view(pairs@);
                assert(pv.take(i + 1).drop_last() =~= pv.take(i as int));
                assert(pv.take(i + 1).last() == pv[i as int]);
            }
            i = i + 1;
        }
        proof {
            assert(pairs_view(pairs@).take(pairs@.len() as int) =~= pairs_view(pairs@));
        }
        v
    }
}

/// Splits a key on `.` into its path segments.
pub fn split_key(s: &str) -> (r: Vec<String>)
    ensures
        segs(r@) == spec_split_path(s@),
{
    let len = s.unicode_len();
    let mut out: Vec<String> = Vec::new();
    let mut seg_start: usize = 0;
    let mut i: usize = 0;
    proof {
        assert(s@.skip(0) =~= s@);
        assert(s@.subrange(0, 0) =~= Seq::<char>::empty());
        assert(segs(out@) + split_acc(s@, Seq::<char>::empty()) =~= split_acc(
            s@,
            Seq::<char>::empty(),
        ));
    }
    while i < len
        invariant
            seg_start <= i <= len,
            len == s@.len(),
            spec_split_path(s@) == segs(out@) + split_acc(
                s@.skip(i as int),
                s@.subrange(seg_start as int, i as int),
            ),
        decreases len - i,
    {
        let ghost pre_rest = s@.skip(i as int);
        let ghost cur = s@.subrange(seg_start as int, i as int);
        let c = s.get_char(i);
        proof {
            assert(pre_rest[0] == c);
        }
        if c == '.' {
            let seg = s.substring_char(seg_start, i);
            out.push(seg.to_owned());
            seg_start = i + 1;
            i = i + 1;
            proof {
                assert(pre_rest.skip(1) =~= s@.skip(i as int));
                assert(s@.subrange(seg_start as int, i as int) =~= Seq::<char>::empty());
                assert(segs(out@) =~= segs(out@.drop_last()) + seq![cur]);
            }
        } else {
            i = i + 1;
            proof {
                assert(pre_rest.skip(1) =~= s@.skip(i as int));
                assert(s@.subrange(seg_start as int, i as int) =~= cur.push(c));
            }
        }
    }
    let seg = s.substring_char(seg_start, len);
    out.push(seg.to_owned());
    proof {
        assert(s@.skip(len as int) =~= Seq::<char>::empty());
        assert(segs(out@) =~= segs(out@.drop_last()) + seq![s@.subrange(
            seg_start as int,
            len as int,
        )]);
    }
    out
}

} // verus!
