//! The encode writer.
//!
//! Encoding builds an ordered tree bottom-up on an explicit stack of
//! in-progress composites, then flattens it into the wire text: one
//! `path=value&` pair per leaf, a sequence followed by its `$length`
//! marker, and exactly one trailing separator stripped at the end.

use vstd::prelude::*;

use crate::error::Error;
use crate::num::{i64_text, u64_text};

verus! {

/// The spec-level encode tree; order is emission order.
pub enum ValueV {
    Mapping(Seq<(Seq<char>, ValueV)>),
    Sequence(Seq<ValueV>),
    Single(Seq<char>),
}

/// The ordered entries of a composite; duplicate keys are legal and all
/// are emitted.
#[derive(Debug)]
pub struct ValueMap(pub Vec<(String, Value)>);

/// One node of the encode tree.
///
/// Unlike the decode tree this representation is ordered, because encoding
/// must preserve field and element order, and it keeps sequences distinct
/// from keyed composites.
#[derive(Debug)]
pub enum Value {
    Mapping(ValueMap),
    Sequence(Vec<Value>),
    Single(String),
}

pub open spec fn enc_view(v: Value) -> ValueV
    decreases v,
{
    match v {
        Value::Mapping(m) => ValueV::Mapping(enc_entries_view(m.0@)),
        Value::Sequence(vs) => ValueV::Sequence(enc_seq_view(vs@)),
        Value::Single(s) => ValueV::Single(s@),
    }
}

pub open spec fn enc_entries_view(es: Seq<(String, Value)>) -> Seq<(Seq<char>, ValueV)>
    decreases es,
{
    if es.len() == 0 {
        Seq::empty()
    } else {
        enc_entries_view(es.drop_last()).push((es.last().0@, enc_view(es.last().1)))
    }
}

pub open spec fn enc_seq_view(vs: Seq<Value>) -> Seq<ValueV>
    decreases vs,
{
    if vs.len() == 0 {
        Seq::empty()
    } else {
        enc_seq_view(vs.drop_last()).push(enc_view(vs.last()))
    }
}

impl View for Value {
    type V = ValueV;

    open spec fn view(&self) -> ValueV {
        enc_view(*self)
    }
}

impl View for ValueMap {
    type V = Seq<(Seq<char>, ValueV)>;

    open spec fn view(&self) -> Seq<(Seq<char>, ValueV)> {
        enc_entries_view(self.0@)
    }
}

pub proof fn lemma_enc_entries_view_index(es: Seq<(String, Value)>)
    ensures
        enc_entries_view(es).len() == es.len(),
        forall|i: int|
            0 <= i < es.len() ==> #[trigger] enc_entries_view(es)[i] == (
                es[i].0@,
                enc_view(es[i].1),
            ),
    decreases es.len(),
{
    if es.len() > 0 {
        lemma_enc_entries_view_index(es.drop_last());
        assert forall|i: int|
            0 <= i < es.len() implies #[trigger] enc_entries_view(es)[i] == (
            es[i].0@,
            enc_view(es[i].1),
        ) by {
            if i < es.len() - 1 {
                assert(es.drop_last()[i] == es[i]);
            } else {
                assert(es.last() == es[i]);
            }
        }
    }
}

pub proof fn lemma_enc_seq_view_index(vs: Seq<Value>)
    ensures
        enc_seq_view(vs).len() == vs.len(),
        forall|i: int| 0 <= i < vs.len() ==> #[trigger] enc_seq_view(vs)[i] == enc_view(vs[i]),
    decreases vs.len(),
{
    if vs.len() > 0 {
        lemma_enc_seq_view_index(vs.drop_last());
        assert forall|i: int| 0 <= i < vs.len() implies #[trigger] enc_seq_view(vs)[i] == enc_view(
            vs[i],
        ) by {
            if i < vs.len() - 1 {
                assert(vs.drop_last()[i] == vs[i]);
            } else {
                assert(vs.last() == vs[i]);
            }
        }
    }
}

/// The path prefix under which the children of a node at `path` live.
pub open spec fn prefix_of(path: Seq<char>) -> Seq<char> {
    if path.len() > 0 {
        path + "."@
    } else {
        path
    }
}

/// The flattened text of a node at `path`.
pub open spec fn flat(v: ValueV, path: Seq<char>) -> Seq<char>
    decreases v, 0int,
{
    match v {
        ValueV::Single(s) => path + "="@ + s + "&"@,
        ValueV::Mapping(es) => flat_entries(es, prefix_of(path), 0),
        ValueV::Sequence(vs) => flat_elems(vs, prefix_of(path), 0) + prefix_of(path) + "$length="@
            + u64_text(vs.len() as int) + "&"@,
    }
}

/// The flattened text of the entries from `i` on, each under its key.
pub open spec fn flat_entries(es: Seq<(Seq<char>, ValueV)>, prefix: Seq<char>, i: int) -> Seq<char>
    decreases es, es.len() - i,
{
    if i < 0 || i >= es.len() {
        Seq::empty()
    } else {
        flat(es[i].1, prefix + es[i].0) + flat_entries(es, prefix, i + 1)
    }
}

/// The flattened text of the elements from `i` on, each under its decimal
/// index.
pub open spec fn flat_elems(vs: Seq<ValueV>, prefix: Seq<char>, i: int) -> Seq<char>
    decreases vs, vs.len() - i,
{
    if i < 0 || i >= vs.len() {
        Seq::empty()
    } else {
        flat(vs[i], prefix + u64_text(i)) + flat_elems(vs, prefix, i + 1)
    }
}

/// The whole document: the flattened pairs with the one trailing
/// separator stripped.
pub open spec fn strip_sep(s: Seq<char>) -> Seq<char> {
    if s.len() > 0 && s.last() == '&' {
        s.drop_last()
    } else {
        s
    }
}

/// The child prefix of `path`: `path` followed by `.`, or empty at the
/// root.
fn make_prefix(path: &str) -> (r: String)
    ensures
        r@ == prefix_of(path@),
{
    let mut s = path.to_owned();
    if !path.is_empty() {
        s.append(".");
    }
    proof {
        assert(s@ =~= prefix_of(path@));
    }
    s
}

impl Value {
    /// Flattens this node into `output`, every leaf below it becoming one
    /// `path=value&` pair, a sequence followed by its `$length` marker.
    pub fn write(&self, path: &str, output: &mut String)
        ensures
            final(output)@ == old(output)@ + flat(self@, path@),
        decreases self@,
    {
        let ghost out0 = output@;
        match self {
            Value::Single(value) => {
                output.append(path);
                output.append("=");
                output.append(value.as_str());
                output.append("&");
                proof {
                    assert(output@ =~= out0 + flat(self@, path@));
                }
            },
            Value::Mapping(m) => {
                let ghost es = enc_entries_view(m.0@);
                let prefix = make_prefix(path);
                proof {
                    lemma_enc_entries_view_index(m.0@);
                    assert(out0 + flat_entries(es, prefix@, 0) =~= out0 + flat(self@, path@));
                }
                let mut i: usize = 0;
                while i < m.0.len()
                    invariant
                        i <= m.0@.len(),
                        self@ == ValueV::Mapping(es),
                        es == enc_entries_view(m.0@),
                        es.len() == m.0@.len(),
                        forall|j: int|
                            0 <= j < es.len() ==> #[trigger] es[j] == (
                                m.0@[j].0@,
                                enc_view(m.0@[j].1),
                            ),
                        prefix@ == prefix_of(path@),
                        out0 + flat(self@, path@) == output@ + flat_entries(es, prefix@, i as int),
                    decreases m.0@.len() - i,
                {
                    let mut cpth = prefix.clone();
                    cpth.append(m.0[i].0.as_str());
                    proof {
                        assert(decreases_to!(self@ => self@->Mapping_0));
                        assert(decreases_to!(es => es[i as int]));
                        assert(decreases_to!(es[i as int] => es[i as int].1));
                        assert(m.0@[i as int].1@ == es[i as int].1);
                        assert(decreases_to!(self@ => m.0@[i as int].1@));
                    }
                    m.0[i].1.write(cpth.as_str(), output);
                    proof {
                        assert(out0 + flat(self@, path@) =~= output@ + flat_entries(
                            es,
                            prefix@,
                            i + 1,
                        ));
                    }
                    i = i + 1;
                }
                proof {
                    assert(out0 + flat(self@, path@) =~= output@);
                }
            },
            Value::Sequence(vs) => {
                let ghost evs = enc_seq_view(vs@);
                let prefix = make_prefix(path);
                proof {
                    lemma_enc_seq_view_index(vs@);
                    assert(flat(self@, path@) == flat_elems(evs, prefix@, 0) + prefix@
                        + "$length="@ + u64_text(evs.len() as int) + "&"@);
                }
                let mut i: usize = 0;
                while i < vs.len()
                    invariant
                        i <= vs@.len(),
                        self@ == ValueV::Sequence(evs),
                        evs == enc_seq_view(vs@),
                        evs.len() == vs@.len(),
                        forall|j: int| 0 <= j < evs.len() ==> #[trigger] evs[j] == enc_view(vs@[j]),
                        prefix@ == prefix_of(path@),
                        output@ + flat_elems(evs, prefix@, i as int) == out0 + flat_elems(
                            evs,
                            prefix@,
                            0,
                        ),
                    decreases vs@.len() - i,
                {
                    let mut cpth = prefix.clone();
                    let digits = crate::num::format_u64(i as u64);
                    cpth.append(digits.as_str());
                    proof {
                        assert(decreases_to!(self@ => self@->Sequence_0));
                        assert(decreases_to!(evs => evs[i as int]));
                        assert(vs@[i as int]@ == evs[i as int]);
                        assert(decreases_to!(self@ => vs@[i as int]@));
                        assert(cpth@ == prefix@ + u64_text(i as int));
                    }
                    vs[i].write(cpth.as_str(), output);
                    proof {
                        assert(output@ + flat_elems(evs, prefix@, i + 1) =~= out0 + flat_elems(
                            evs,
                            prefix@,
                            0,
                        ));
                    }
                    i = i + 1;
                }
                output.append(prefix.as_str());
                output.append("$length=");
                let digits = crate::num::format_u64(vs.len() as u64);
                output.append(digits.as_str());
                output.append("&");
                proof {
                    assert(flat_elems(evs, prefix@, vs@.len() as int) =~= Seq::<char>::empty());
                    assert(output@ =~= out0 + flat(self@, path@));
                }
            },
        }
    }

    /// Flattens the whole tree and strips the one trailing separator.
    pub fn to_string(self) -> (r: String)
        ensures
            r@ == strip_sep(flat(self@, Seq::empty())),
    {
        let mut output = String::new();
        self.write("", &mut output);
        proof {
            reveal_strlit("");
            assert(""@ =~= Seq::<char>::empty());
            assert(output@ =~= flat(self@, Seq::empty()));
        }
        let n = output.as_str().unicode_len();
        if n > 0 && output.as_str().get_char(n - 1) == '&' {
            let r = output.as_str().substring_char(0, n - 1).to_owned();
            proof {
                assert(r@ =~= strip_sep(flat(self@, Seq::empty())));
            }
            r
        } else {
            output
        }
    }
}

impl Value {
    /// The leaf text; the node must be a leaf.
    pub fn as_single(self) -> (r: String)
        requires
            self@ is Single,
        ensures
            self@ == ValueV::Single(r@),
    {
        match self {
            Value::Single(value) => value,
            _ => {
                proof {
                    assert(false);
                }
                String::new()
            },
        }
    }

    /// The leaf text, if this node is a leaf.
    pub fn try_as_single(self) -> (r: Option<String>)
        ensures
            match r {
                Some(s) => self@ == ValueV::Single(s@),
                None => !(self@ is Single),
            },
    {
        match self {
            Value::Single(value) => Some(value),
            _ => None,
        }
    }

    /// The elements, if this node is a sequence.
    pub fn try_as_mut_seq(&mut self) -> (r: Option<&mut Vec<Value>>)
        ensures
            match r {
                Some(vs) => old(self)@ == ValueV::Sequence(enc_seq_view((*vs)@)) && *final(self)
                    == Value::Sequence(*final(vs)),
                None => !(old(self)@ is Sequence) && *final(self) == *old(self),
            },
    {
        match self {
            Value::Sequence(value) => Some(value),
            _ => None,
        }
    }

    /// The elements; the node must be a sequence.
    pub fn as_mut_seq(&mut self) -> (r: &mut Vec<Value>)
        requires
            old(self)@ is Sequence,
        ensures
            old(self)@ == ValueV::Sequence(enc_seq_view((*r)@)),
            *final(self) == Value::Sequence(*final(r)),
    {
        match self.try_as_mut_seq() {
            Some(vs) => vs,
            None => vstd::pervasive::unreached(),
        }
    }

    /// The entries, if this node is a keyed composite.
    pub fn try_as_map(self) -> (r: Option<ValueMap>)
        ensures
            match r {
                Some(m) => self@ == ValueV::Mapping(m@),
                None => !(self@ is Mapping),
            },
    {
        match self {
            Value::Mapping(m) => Some(m),
            _ => None,
        }
    }

    /// The entries; the node must be a keyed composite.
    pub fn as_map(self) -> (r: ValueMap)
        requires
            self@ is Mapping,
        ensures
            self@ == ValueV::Mapping(r@),
    {
        match self {
            Value::Mapping(m) => m,
            _ => {
                proof {
                    assert(false);
                }
                ValueMap(Vec::new())
            },
        }
    }

    /// The entries, if this node is a keyed composite.
    pub fn try_as_mut_map(&mut self) -> (r: Option<&mut ValueMap>)
        ensures
            match r {
                Some(m) => old(self)@ == ValueV::Mapping((*m)@) && *final(self) == Value::Mapping(
                    *final(m),
                ),
                None => !(old(self)@ is Mapping) && *final(self) == *old(self),
            },
    {
        match self {
            Value::Mapping(m) => Some(m),
            _ => None,
        }
    }

    /// The entries; the node must be a keyed composite.
    pub fn as_mut_map(&mut self) -> (r: &mut ValueMap)
        requires
            old(self)@ is Mapping,
        ensures
            old(self)@ == ValueV::Mapping((*r)@),
            *final(self) == Value::Mapping(*final(r)),
    {
        match self.try_as_mut_map() {
            Some(m) => m,
            None => vstd::pervasive::unreached(),
        }
    }
}

/// The explicit stack of in-progress composites that the data model's
/// traversal builds bottom-up: composites are opened by pushing an empty
/// node and filled by folding finished children into them.
#[derive(Debug)]
pub struct FormEncoder(pub Vec<Value>);

impl View for FormEncoder {
    type V = Seq<ValueV>;

    open spec fn view(&self) -> Seq<ValueV> {
        enc_seq_view(self.0@)
    }
}

impl FormEncoder {
    /// An empty stack.
    pub fn new() -> (r: FormEncoder)
        ensures
            r@ == Seq::<ValueV>::empty(),
    {
        FormEncoder(Vec::new())
    }

    /// Pushes a finished node.
    pub fn push(&mut self, item: Value)
        ensures
            final(self)@ == old(self)@.push(item@),
    {
        self.0.push(item);
        proof {
            assert(self.0@.drop_last() =~= old(self).0@);
        }
    }

    /// Folds the two topmost stack slots, a key leaf above a composite and
    /// a value above the key, into the composite below: the entry
    /// `(key, value)` is appended to it.
    pub fn pop_key_value(&mut self) -> (r: Result<(), Error>)
        requires
            old(self)@.len() >= 3,
            old(self)@[old(self)@.len() - 2] is Single,
            old(self)@[old(self)@.len() - 3] is Mapping,
        ensures
            r is Ok,
            ({
                let n = old(self)@.len();
                let key = old(self)@[n - 2]->Single_0;
                let value = old(self)@[n - 1];
                let es = old(self)@[n - 3]->Mapping_0;
                final(self)@ == old(self)@.take(n - 3).push(ValueV::Mapping(es.push((key, value))))
            }),
    {
        proof {
            lemma_enc_seq_view_index(self.0@);
        }
        let ghost stack0 = self.0@;
        let value = match self.0.pop() {
            Some(v) => v,
            None => {
                proof {
                    assert(false);
                }
                return Err(Error::Custom(String::new()));
            },
        };
        let key_node = match self.0.pop() {
            Some(v) => v,
            None => {
                proof {
                    assert(false);
                }
                return Err(Error::Custom(String::new()));
            },
        };
        proof {
            assert(key_node@ == enc_seq_view(stack0)[stack0.len() - 2]);
        }
        let key = key_node.as_single();
        let mut map_node = match self.0.pop() {
            Some(v) => v,
            None => {
                proof {
                    assert(false);
                }
                return Err(Error::Custom(String::new()));
            },
        };
        proof {
            assert(map_node@ == enc_seq_view(stack0)[stack0.len() - 3]);
        }
        let ghost es0 = map_node@->Mapping_0;
        match &mut map_node {
            Value::Mapping(m) => {
                let ghost entries0 = m.0@;
                m.0.push((key, value));
                proof {
                    assert(m.0@.drop_last() =~= entries0);
                }
            },
            _ => {
                proof {
                    assert(false);
                }
            },
        }
        let ghost popped = self.0@;
        self.0.push(map_node);
        proof {
            assert(self.0@.drop_last() =~= popped);
            assert(popped =~= stack0.take(stack0.len() - 3));
            lemma_enc_seq_view_index(popped);
            lemma_enc_seq_view_index(self.0@);
            assert(enc_seq_view(self.0@) =~= enc_seq_view(popped).push(map_node@));
            assert(enc_seq_view(popped) =~= enc_seq_view(stack0).take(stack0.len() - 3));
        }
        Ok(())
    }

    /// Folds like `pop_key_value`, but tests the key slot first: a
    /// serialized key that is not a single leaf is rejected as an encode
    /// failure, the stack left unchanged.
    pub fn pop_key_value_checked(&mut self) -> (r: Result<(), Error>)
        requires
            old(self)@.len() >= 3,
            old(self)@[old(self)@.len() - 3] is Mapping,
        ensures
            ({
                let n = old(self)@.len();
                if old(self)@[n - 2] is Single {
                    let key = old(self)@[n - 2]->Single_0;
                    let value = old(self)@[n - 1];
                    let es = old(self)@[n - 3]->Mapping_0;
                    r is Ok && final(self)@ == old(self)@.take(n - 3).push(
                        ValueV::Mapping(es.push((key, value))),
                    )
                } else {
                    (match r {
                        Ok(_) => false,
                        Err(e) => match e {
                            Error::Custom(m) => m@ == "map keys must serialize to a single leaf"@,
                            _ => false,
                        },
                    }) && *final(self) == *old(self)
                }
            }),
    {
        proof {
            lemma_enc_seq_view_index(self.0@);
        }
        let n = self.0.len();
        let key_is_leaf = match &self.0[n - 2] {
            Value::Single(_) => true,
            _ => false,
        };
        if !key_is_leaf {
            return Err(Error::Custom("map keys must serialize to a single leaf".to_owned()));
        }
        self.pop_key_value()
    }

    /// Folds the topmost stack slot, a finished element above a sequence,
    /// into the sequence below it.
    pub fn pop_element(&mut self) -> (r: Result<(), Error>)
        requires
            old(self)@.len() >= 2,
            old(self)@[old(self)@.len() - 2] is Sequence,
        ensures
            r is Ok,
            ({
                let n = old(self)@.len();
                let value = old(self)@[n - 1];
                let vs = old(self)@[n - 2]->Sequence_0;
                final(self)@ == old(self)@.take(n - 2).push(ValueV::Sequence(vs.push(value)))
            }),
    {
        proof {
            lemma_enc_seq_view_index(self.0@);
        }
        let ghost stack0 = self.0@;
        let value = match self.0.pop() {
            Some(v) => v,
            None => {
                proof {
                    assert(false);
                }
                return Err(Error::Custom(String::new()));
            },
        };
        let mut seq_node = match self.0.pop() {
            Some(v) => v,
            None => {
                proof {
                    assert(false);
                }
                return Err(Error::Custom(String::new()));
            },
        };
        proof {
            assert(seq_node@ == enc_seq_view(stack0)[stack0.len() - 2]);
        }
        match &mut seq_node {
            Value::Sequence(vs) => {
                let ghost elems0 = vs@;
                vs.push(value);
                proof {
                    assert(vs@.drop_last() =~= elems0);
                }
            },
            _ => {
                proof {
                    assert(false);
                }
            },
        }
        let ghost popped = self.0@;
        self.0.push(seq_node);
        proof {
            assert(self.0@.drop_last() =~= popped);
            assert(popped =~= stack0.take(stack0.len() - 2));
            lemma_enc_seq_view_index(popped);
            lemma_enc_seq_view_index(self.0@);
            assert(enc_seq_view(self.0@) =~= enc_seq_view(popped).push(seq_node@));
            assert(enc_seq_view(popped) =~= enc_seq_view(stack0).take(stack0.len() - 2));
        }
        Ok(())
    }
}

/// The leaf text of a string: wrapped in `"`, each inner `"` escaped by a
/// preceding `\`.  No other character is escaped, not even `\` itself —
/// an inherited limitation that makes a literal backslash ambiguous on
/// decode.
pub open spec fn escape(s: Seq<char>) -> Seq<char>
    decreases s.len(),
{
    if s.len() == 0 {
        s
    } else if s.last() == '"' {
        escape(s.drop_last()) + seq!['\\', '"']
    } else {
        escape(s.drop_last()).push(s.last())
    }
}

/// The quoted form of a string leaf.
pub open spec fn quote(s: Seq<char>) -> Seq<char> {
    seq!['"'] + escape(s) + seq!['"']
}

/// The leaf of a boolean: the lowercase literal.
pub fn encode_bool(v: bool) -> (r: Value)
    ensures
        r@ == ValueV::Single(
            if v {
                "true"@
            } else {
                "false"@
            },
        ),
{
    if v {
        Value::Single("true".to_owned())
    } else {
        Value::Single("false".to_owned())
    }
}

/// The leaf of an unsigned integer: its decimal text.
pub fn encode_u64(v: u64) -> (r: Value)
    ensures
        r@ == ValueV::Single(u64_text(v as int)),
{
    Value::Single(crate::num::format_u64(v))
}

/// The leaf of a signed integer: its decimal text.
pub fn encode_i64(v: i64) -> (r: Value)
    ensures
        r@ == ValueV::Single(i64_text(v as int)),
{
    Value::Single(crate::num::format_i64(v))
}

/// The leaf of a `u8`.
pub fn encode_u8(v: u8) -> (r: Value)
    ensures
        r@ == ValueV::Single(u64_text(v as int)),
{
    encode_u64(v as u64)
}

/// The leaf of a `u16`.
pub fn encode_u16(v: u16) -> (r: Value)
    ensures
        r@ == ValueV::Single(u64_text(v as int)),
{
    encode_u64(v as u64)
}

/// The leaf of a `u32`.
pub fn encode_u32(v: u32) -> (r: Value)
    ensures
        r@ == ValueV::Single(u64_text(v as int)),
{
    encode_u64(v as u64)
}

/// The leaf of an `i8`.
pub fn encode_i8(v: i8) -> (r: Value)
    ensures
        r@ == ValueV::Single(i64_text(v as int)),
{
    encode_i64(v as i64)
}

/// The leaf of an `i16`.
pub fn encode_i16(v: i16) -> (r: Value)
    ensures
        r@ == ValueV::Single(i64_text(v as int)),
{
    encode_i64(v as i64)
}

/// The leaf of an `i32`.
pub fn encode_i32(v: i32) -> (r: Value)
    ensures
        r@ == ValueV::Single(i64_text(v as int)),
{
    encode_i64(v as i64)
}

/// The absent-option and unit leaf.
pub fn encode_null() -> (r: Value)
    ensures
        r@ == ValueV::Single("null"@),
{
    Value::Single("null".to_owned())
}

/// The quoted leaf of a string.
pub fn encode_str(v: &str) -> (r: Value)
    ensures
        r@ == ValueV::Single(quote(v@)),
{
    let len = v.unicode_len();
    let mut out = "\"".to_owned();
    proof {
        reveal_strlit("\"");
        reveal_strlit("\\\"");
        assert(v@.take(0) =~= Seq::<char>::empty());
        assert(out@ =~= seq!['"'] + escape(v@.take(0)));
    }
    let mut i: usize = 0;
    while i < len
        invariant
            i <= len,
            len == v@.len(),
            out@ == seq!['"'] + escape(v@.take(i as int)),
        decreases len - i,
    {
        let ghost pre = out@;
        let c = v.get_char(i);
        if c == '"' {
            out.append("\\\"");
        } else {
            let piece = v.substring_char(i, i + 1);
            out.append(piece);
        }
        proof {
            reveal_strlit("\\\"");
            assert(v@.take(i + 1).drop_last() =~= v@.take(i as int));
            assert(v@.take(i + 1).last() == c);
            assert(v@.subrange(i as int, i + 1) =~= seq![c]);
            assert(out@ =~= seq!['"'] + escape(v@.take(i + 1)));
        }
        i = i + 1;
    }
    out.append("\"");
    proof {
        reveal_strlit("\"");
        assert(v@.take(len as int) =~= v@);
        assert(out@ =~= quote(v@));
    }
    Value::Single(out)
}

/// The sequence node of a byte string: each byte a decimal leaf, exactly
/// as a generic sequence of small integers.
pub fn encode_bytes(v: &[u8]) -> (r: Value)
    ensures
        r@ == ValueV::Sequence(Seq::new(v@.len(), |i: int| ValueV::Single(u64_text(v@[i] as int)))),
{
    let ghost target = Seq::new(v@.len(), |i: int| ValueV::Single(u64_text(v@[i] as int)));
    let mut out: Vec<Value> = Vec::new();
    let mut i: usize = 0;
    while i < v.len()
        invariant
            i <= v@.len(),
            target == Seq::new(v@.len(), |j: int| ValueV::Single(u64_text(v@[j] as int))),
            enc_seq_view(out@) == target.take(i as int),
            out@.len() == i,
        decreases v@.len() - i,
    {
        let ghost out_pre = out@;
        let b = v[i];
        out.push(encode_u64(b as u64));
        proof {
            assert(out@.drop_last() =~= out_pre);
            assert(enc_seq_view(out@) =~= target.take(i + 1));
        }
        i = i + 1;
    }
    proof {
        assert(target.take(v@.len() as int) =~= target);
    }
    Value::Sequence(out)
}

} // verus!
