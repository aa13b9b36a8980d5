//! The decode adapter.
//!
//! A [`FormDecoder`] owns the decode tree of one input and hands out typed
//! scalar conversions.  Composite decoding walks the tree node by node:
//! children are removed from their parent as they are read, so required
//! structure that is missing surfaces as a typed error.  Decoding fails
//! fast: the first error aborts the whole operation.

use vstd::prelude::*;

use crate::error::Error;
use crate::lexer::lex_root;
use crate::num::{is_unsigned_text, unsigned_text_val, is_signed_text, signed_text_val, u64_text};
use crate::parser::{assemble, pairs_view, parse_toks, KeyValue, Parser, Value, ValueMap, ValueV};

verus! {

/// ASCII-case-insensitive `true`.
pub open spec fn is_true_text(s: Seq<char>) -> bool {
    &&& s.len() == 4
    &&& (s[0] == 't' || s[0] == 'T')
    &&& (s[1] == 'r' || s[1] == 'R')
    &&& (s[2] == 'u' || s[2] == 'U')
    &&& (s[3] == 'e' || s[3] == 'E')
}

/// ASCII-case-insensitive `false`.
pub open spec fn is_false_text(s: Seq<char>) -> bool {
    &&& s.len() == 5
    &&& (s[0] == 'f' || s[0] == 'F')
    &&& (s[1] == 'a' || s[1] == 'A')
    &&& (s[2] == 'l' || s[2] == 'L')
    &&& (s[3] == 's' || s[3] == 'S')
    &&& (s[4] == 'e' || s[4] == 'E')
}

fn is_true_lit(s: &str) -> (r: bool)
    ensures
        r == is_true_text(s@),
{
    s.unicode_len() == 4 && (s.get_char(0) == 't' || s.get_char(0) == 'T') && (s.get_char(1) == 'r'
        || s.get_char(1) == 'R') && (s.get_char(2) == 'u' || s.get_char(2) == 'U') && (s.get_char(3)
        == 'e' || s.get_char(3) == 'E')
}

fn is_false_lit(s: &str) -> (r: bool)
    ensures
        r == is_false_text(s@),
{
    s.unicode_len() == 5 && (s.get_char(0) == 'f' || s.get_char(0) == 'F') && (s.get_char(1) == 'a'
        || s.get_char(1) == 'A') && (s.get_char(2) == 'l' || s.get_char(2) == 'L') && (s.get_char(3)
        == 's' || s.get_char(3) == 'S') && (s.get_char(4) == 'e' || s.get_char(4) == 'E')
}

/// The decode adapter over one decode tree.
pub struct FormDecoder(pub Value);

impl FormDecoder {
    pub open spec fn inv(self) -> bool {
        self.0.inv()
    }

    /// Tokenizes, parses and assembles `input` into a decode tree, or
    /// reports the grammar error.
    pub fn new(input: &str) -> (r: Result<FormDecoder, Error>)
        ensures
            match parse_toks(lex_root(input@)) {
                Ok(ps) => match r {
                    Ok(d) => d.0@ == assemble(ps) && d.inv(),
                    Err(_) => false,
                },
                Err(i) => r == Err::<FormDecoder, _>(Error::MalformedInput(i as usize)),
            },
    {
        let mut parser = Parser::new(input);
        let mut pairs: Vec<KeyValue> = Vec::new();
        proof {
            if parse_toks(lex_root(input@)) is Ok {
                assert(parse_toks(lex_root(input@))->Ok_0 =~= pairs_view(pairs@) + parse_toks(
                    lex_root(input@),
                )->Ok_0);
            }
        }
        loop
            invariant
                parser.wf(),
                match parse_toks(lex_root(input@)) {
                    Ok(ps) => parser.pending() is Ok && ps == pairs_view(pairs@)
                        + parser.pending()->Ok_0,
                    Err(e) => parser.pending() == Err::<Seq<(Seq<char>, Seq<char>)>, int>(e),
                },
            decreases parser.lexer.len - parser.lexer.pos,
        {
            let ghost pre_pairs = pairs@;
            match parser.next_pair() {
                None => {
                    proof {
                        let whole = parse_toks(lex_root(input@));
                        if whole is Ok {
                            assert(whole->Ok_0 =~= pairs_view(pairs@));
                        }
                    }
                    let v = Value::from_pairs(&pairs);
                    return Ok(FormDecoder(v));
                },
                Some(Ok(kv)) => {
                    pairs.push(kv);
                    proof {
                        assert(pairs_view(pairs@) =~= pairs_view(pre_pairs).push(kv@));
                        let whole = parse_toks(lex_root(input@));
                        if whole is Ok && parser.pending() is Ok {
                            assert(whole->Ok_0 =~= pairs_view(pairs@) + parser.pending()->Ok_0);
                        }
                    }
                },
                Some(Err(e)) => {
                    return Err(e);
                },
            }
        }
    }

    /// The leaf text of the node, or `ExpectingString`.
    pub fn try_as_single(self) -> (r: Result<String, Error>)
        ensures
            match r {
                Ok(s) => self.0@ == ValueV::Single(s@),
                Err(e) => self.0@ is Mapping && e == Error::ExpectingString,
            },
    {
        match self.0.try_as_single() {
            Some(s) => Ok(s),
            None => Err(Error::ExpectingString),
        }
    }

    /// The entries of the node, or `ExpectingMap`.
    pub fn try_as_map(self) -> (r: Result<ValueMap, Error>)
        requires
            self.inv(),
        ensures
            match r {
                Ok(m) => self.0@ == ValueV::Mapping(m@) && m.inv(),
                Err(e) => self.0@ is Single && e == Error::ExpectingMap,
            },
    {
        match self.0.try_as_map() {
            Some(m) => Ok(m),
            None => Err(Error::ExpectingMap),
        }
    }

    /// True when this node is the absent-option marker: the exact leaf
    /// `null`, case-sensitive.
    pub fn is_null(&self) -> (r: bool)
        ensures
            r == (self.0@ is Single && self.0@->Single_0 == "null"@),
    {
        match &self.0 {
            Value::Single(s) => crate::text::str_eq(s.as_str(), "null"),
            Value::Mapping(_) => false,
        }
    }

    /// Decodes the leaf as a boolean, matched case-insensitively against
    /// `true` and `false`.
    pub fn decode_bool(self) -> (r: Result<bool, Error>)
        ensures
            match self.0@ {
                ValueV::Mapping(_) => r == Err::<bool, _>(Error::ExpectingString),
                ValueV::Single(s) => if is_true_text(s) {
                    r == Ok::<_, Error>(true)
                } else if is_false_text(s) {
                    r == Ok::<_, Error>(false)
                } else {
                    r == Err::<bool, _>(Error::ExpectingBool)
                },
            },
    {
        let s = match self.try_as_single() {
            Ok(s) => s,
            Err(e) => {
                return Err(e);
            },
        };
        if is_true_lit(s.as_str()) {
            Ok(true)
        } else if is_false_lit(s.as_str()) {
            Ok(false)
        } else {
            Err(Error::ExpectingBool)
        }
    }

    /// Decodes the leaf with the standard `u8` grammar.
    pub fn decode_u8(self) -> (r: Result<u8, Error>)
        ensures
            match self.0@ {
                ValueV::Mapping(_) => r == Err::<u8, _>(Error::ExpectingString),
                ValueV::Single(s) => if is_unsigned_text(s) && unsigned_text_val(s) <= u8::MAX {
                    r == Ok::<_, Error>(unsigned_text_val(s) as u8)
                } else {
                    r == Err::<u8, _>(Error::ExpectingU8)
                },
            },
    {
        let s = match self.try_as_single() {
            Ok(s) => s,
            Err(e) => {
                return Err(e);
            },
        };
        match crate::num::parse_u8(s.as_str()) {
            Some(v) => Ok(v),
            None => Err(Error::ExpectingU8),
        }
    }

    /// Decodes the leaf with the standard `u16` grammar.
    pub fn decode_u16(self) -> (r: Result<u16, Error>)
        ensures
            match self.0@ {
                ValueV::Mapping(_) => r == Err::<u16, _>(Error::ExpectingString),
                ValueV::Single(s) => if is_unsigned_text(s) && unsigned_text_val(s) <= u16::MAX {
                    r == Ok::<_, Error>(unsigned_text_val(s) as u16)
                } else {
                    r == Err::<u16, _>(Error::ExpectingU16)
                },
            },
    {
        let s = match self.try_as_single() {
            Ok(s) => s,
            Err(e) => {
                return Err(e);
            },
        };
        match crate::num::parse_u16(s.as_str()) {
            Some(v) => Ok(v),
            None => Err(Error::ExpectingU16),
        }
    }

    /// Decodes the leaf with the standard `u32` grammar.
    pub fn decode_u32(self) -> (r: Result<u32, Error>)
        ensures
            match self.0@ {
                ValueV::Mapping(_) => r == Err::<u32, _>(Error::ExpectingString),
                ValueV::Single(s) => if is_unsigned_text(s) && unsigned_text_val(s) <= u32::MAX {
                    r == Ok::<_, Error>(unsigned_text_val(s) as u32)
                } else {
                    r == Err::<u32, _>(Error::ExpectingU32)
                },
            },
    {
        let s = match self.try_as_single() {
            Ok(s) => s,
            Err(e) => {
                return Err(e);
            },
        };
        match crate::num::parse_u32(s.as_str()) {
            Some(v) => Ok(v),
            None => Err(Error::ExpectingU32),
        }
    }

    /// Decodes the leaf with the standard `u64` grammar.
    pub fn decode_u64(self) -> (r: Result<u64, Error>)
        ensures
            match self.0@ {
                ValueV::Mapping(_) => r == Err::<u64, _>(Error::ExpectingString),
                ValueV::Single(s) => if is_unsigned_text(s) && unsigned_text_val(s) <= u64::MAX {
                    r == Ok::<_, Error>(unsigned_text_val(s) as u64)
                } else {
                    r == Err::<u64, _>(Error::ExpectingU64)
                },
            },
    {
        let s = match self.try_as_single() {
            Ok(s) => s,
            Err(e) => {
                return Err(e);
            },
        };
        match crate::num::parse_u64(s.as_str()) {
            Some(v) => Ok(v),
            None => Err(Error::ExpectingU64),
        }
    }

    /// Decodes the leaf with the standard `i8` grammar.
    pub fn decode_i8(self) -> (r: Result<i8, Error>)
        ensures
            match self.0@ {
                ValueV::Mapping(_) => r == Err::<i8, _>(Error::ExpectingString),
                ValueV::Single(s) => if is_signed_text(s) && i8::MIN <= signed_text_val(s)
                    && signed_text_val(s) <= i8::MAX {
                    r == Ok::<_, Error>(signed_text_val(s) as i8)
                } else {
                    r == Err::<i8, _>(Error::ExpectingI8)
                },
            },
    {
        let s = match self.try_as_single() {
            Ok(s) => s,
            Err(e) => {
                return Err(e);
            },
        };
        match crate::num::parse_i8(s.as_str()) {
            Some(v) => Ok(v),
            None => Err(Error::ExpectingI8),
        }
    }

    /// Decodes the leaf with the standard `i16` grammar.
    pub fn decode_i16(self) -> (r: Result<i16, Error>)
        ensures
            match self.0@ {
                ValueV::Mapping(_) => r == Err::<i16, _>(Error::ExpectingString),
                ValueV::Single(s) => if is_signed_text(s) && i16::MIN <= signed_text_val(s)
                    && signed_text_val(s) <= i16::MAX {
                    r == Ok::<_, Error>(signed_text_val(s) as i16)
                } else {
                    r == Err::<i16, _>(Error::ExpectingI16)
                },
            },
    {
        let s = match self.try_as_single() {
            Ok(s) => s,
            Err(e) => {
                return Err(e);
            },
        };
        match crate::num::parse_i16(s.as_str()) {
            Some(v) => Ok(v),
            None => Err(Error::ExpectingI16),
        }
    }

    /// Decodes the leaf with the standard `i32` grammar.
    pub fn decode_i32(self) -> (r: Result<i32, Error>)
        ensures
            match self.0@ {
                ValueV::Mapping(_) => r == Err::<i32, _>(Error::ExpectingString),
                ValueV::Single(s) => if is_signed_text(s) && i32::MIN <= signed_text_val(s)
                    && signed_text_val(s) <= i32::MAX {
                    r == Ok::<_, Error>(signed_text_val(s) as i32)
                } else {
                    r == Err::<i32, _>(Error::ExpectingI32)
                },
            },
    {
        let s = match self.try_as_single() {
            Ok(s) => s,
            Err(e) => {
                return Err(e);
            },
        };
        match crate::num::parse_i32(s.as_str()) {
            Some(v) => Ok(v),
            None => Err(Error::ExpectingI32),
        }
    }

    /// Decodes the leaf with the standard `i64` grammar.
    pub fn decode_i64(self) -> (r: Result<i64, Error>)
        ensures
            match self.0@ {
                ValueV::Mapping(_) => r == Err::<i64, _>(Error::ExpectingString),
                ValueV::Single(s) => if is_signed_text(s) && i64::MIN <= signed_text_val(s)
                    && signed_text_val(s) <= i64::MAX {
                    r == Ok::<_, Error>(signed_text_val(s) as i64)
                } else {
                    r == Err::<i64, _>(Error::ExpectingI64)
                },
            },
    {
        let s = match self.try_as_single() {
            Ok(s) => s,
            Err(e) => {
                return Err(e);
            },
        };
        match crate::num::parse_i64(s.as_str()) {
            Some(v) => Ok(v),
            None => Err(Error::ExpectingI64),
        }
    }

    /// Decodes the leaf as a character: as the canonical character parse
    /// demands, the leaf must be exactly one character.
    pub fn decode_char(self) -> (r: Result<char, Error>)
        ensures
            match self.0@ {
                ValueV::Mapping(_) => r == Err::<char, _>(Error::ExpectingString),
                ValueV::Single(s) => if s.len() == 1 {
                    r == Ok::<_, Error>(s[0])
                } else {
                    r == Err::<char, _>(Error::ExpectingChar)
                },
            },
    {
        let s = match self.try_as_single() {
            Ok(s) => s,
            Err(e) => {
                return Err(e);
            },
        };
        if s.as_str().unicode_len() == 1 {
            Ok(s.as_str().get_char(0))
        } else {
            Err(Error::ExpectingChar)
        }
    }
}

impl ValueMap {
    /// Resolves the reserved `$length` entry of a sequence node: it must
    /// exist, be a leaf, and parse as a `usize`.
    pub fn seq_length(&self) -> (r: Result<usize, Error>)
        requires
            self.inv(),
        ensures
            ({
                let m = self@;
                if !m.contains_key("$length"@) {
                    r == Err::<usize, _>(Error::MissingSequenceLength)
                } else {
                    match m["$length"@] {
                        ValueV::Mapping(_) => r == Err::<usize, _>(Error::ExpectingString),
                        ValueV::Single(s) => if is_unsigned_text(s) && unsigned_text_val(s)
                            <= usize::MAX {
                            r == Ok::<_, Error>(unsigned_text_val(s) as usize)
                        } else {
                            r == Err::<usize, _>(Error::ExpectingUsize)
                        },
                    }
                }
            }),
    {
        let mut path: Vec<String> = Vec::new();
        path.push("$length".to_owned());
        proof {
            let k = "$length"@;
            let m = self@;
            assert(crate::parser::segs(path@) =~= seq![k]);
            assert(seq![k].skip(1) =~= Seq::<Seq<char>>::empty());
            if m.contains_key(k) {
                assert(crate::parser::spec_get(m[k], Seq::<Seq<char>>::empty()) == Some(m[k]));
                assert(crate::parser::spec_get(ValueV::Mapping(m), seq![k]) == Some(m[k]));
            }
        }
        match self.borrow(path.as_slice()) {
            None => Err(Error::MissingSequenceLength),
            Some(v) => match v.try_as_ref_single() {
                None => Err(Error::ExpectingString),
                Some(s) => match crate::num::parse_usize(s.as_str()) {
                    Some(n) => Ok(n),
                    None => Err(Error::ExpectingUsize),
                },
            },
        }
    }

    /// Removes the element of a sequence node at `index`; an index that is
    /// absent is a `MissingSequenceItem` error.
    pub fn take_index(&mut self, index: usize) -> (r: Result<Value, Error>)
        requires
            old(self).inv(),
        ensures
            final(self).inv(),
            ({
                let k = u64_text(index as int);
                match r {
                    Ok(v) => old(self)@.contains_key(k) && v@ == old(self)@[k] && v.inv()
                        && final(self)@ == old(self)@.remove(k),
                    Err(e) => !old(self)@.contains_key(k) && e == Error::MissingSequenceItem
                        && *final(self) == *old(self),
                }
            }),
    {
        let key = crate::num::format_u64(index as u64);
        match self.take(key.as_str()) {
            Some(kv) => Ok(kv.1),
            None => Err(Error::MissingSequenceItem),
        }
    }
}

} // verus!
