//! The tokenizer of the wire format.
//!
//! Raw text is scanned into a finite sequence of tokens: `=`, `&`, and
//! literal runs of text.  A literal is either unquoted (ended by `&`, `=`
//! or the end of the input) or quoted (wrapped in `"`, where `\` makes the
//! next character literal).  The alphabet has no invalid characters, so the
//! tokenizer never fails.
//!
//! End of input inside a quoted literal, or right after a `\`, closes the
//! literal: the accumulated text is emitted as a final token.  That corner
//! is left open by the grammar; emitting the partial literal keeps the
//! tokenizer total.

use vstd::prelude::*;

verus! {

/// One lexical token of the wire text.
#[derive(Debug, Clone, PartialEq, Eq)]
pub enum Token {
    /// `=`
    Assign,
    /// `&`
    Ampersand,
    /// A quoted or unquoted run of text.
    Literal(String),
}

/// The spec-level value of a token.
pub enum TokenV {
    Assign,
    Ampersand,
    Literal(Seq<char>),
}

impl View for Token {
    type V = TokenV;

    open spec fn view(&self) -> TokenV {
        match self {
            Token::Assign => TokenV::Assign,
            Token::Ampersand => TokenV::Ampersand,
            Token::Literal(s) => TokenV::Literal(s@),
        }
    }
}

/// The tokens of `s`, scanned from the root state.
pub open spec fn lex_root(s: Seq<char>) -> Seq<TokenV>
    decreases s.len(),
{
    if s.len() == 0 {
        Seq::empty()
    } else if s[0] == '"' {
        lex_quoted(s.skip(1), Seq::empty())
    } else if s[0] == '&' {
        seq![TokenV::Ampersand] + lex_root(s.skip(1))
    } else if s[0] == '=' {
        seq![TokenV::Assign] + lex_root(s.skip(1))
    } else {
        lex_unquoted(s.skip(1), seq![s[0]])
    }
}

/// The tokens of `s` while inside an unquoted literal whose text so far
/// is `acc`.
pub open spec fn lex_unquoted(s: Seq<char>, acc: Seq<char>) -> Seq<TokenV>
    decreases s.len(),
{
    if s.len() == 0 {
        seq![TokenV::Literal(acc)]
    } else if s[0] == '&' {
        seq![TokenV::Literal(acc), TokenV::Ampersand] + lex_root(s.skip(1))
    } else if s[0] == '=' {
        seq![TokenV::Literal(acc), TokenV::Assign] + lex_root(s.skip(1))
    } else {
        lex_unquoted(s.skip(1), acc.push(s[0]))
    }
}

/// The tokens of `s` while inside a quoted literal whose text so far
/// is `acc`.
pub open spec fn lex_quoted(s: Seq<char>, acc: Seq<char>) -> Seq<TokenV>
    decreases s.len(),
{
    if s.len() == 0 {
        seq![TokenV::Literal(acc)]
    } else if s[0] == '"' {
        seq![TokenV::Literal(acc)] + lex_root(s.skip(1))
    } else if s[0] == '\\' {
        if s.len() == 1 {
            seq![TokenV::Literal(acc)]
        } else {
            lex_quoted(s.skip(2), acc.push(s[1]))
        }
    } else {
        lex_quoted(s.skip(1), acc.push(s[0]))
    }
}

/// The streaming tokenizer.
///
/// `pos` is the index, in characters, of the next character to scan.
/// Between two calls of `next_token` the state machine always rests in its
/// root state, so the position is the whole of the scanner's state.
pub struct Lexer<'a> {
    pub input: &'a str,
    pub pos: usize,
    pub len: usize,
}

impl<'a> Lexer<'a> {
    pub open spec fn wf(self) -> bool {
        self.pos <= self.len && self.len == self.input@.len()
    }

    /// The characters not yet scanned.
    pub open spec fn rest(self) -> Seq<char> {
        self.input@.skip(self.pos as int)
    }

    /// The tokens not yet produced.
    pub open spec fn remaining(self) -> Seq<TokenV> {
        lex_root(self.rest())
    }

    pub fn new(input: &'a str) -> (r: Self)
        ensures
            r.wf(),
            r.input == input,
            r.pos == 0,
            r.rest() == input@,
    {
        let len = input.unicode_len();
        let r = Lexer { input, pos: 0, len };
        proof {
            assert(r.rest() =~= input@);
        }
        r
    }
}

impl Lexer<'_> {
    /// The next character, if any, without consuming it.
    fn peek_char(&self) -> (r: Option<char>)
        requires
            self.wf(),
        ensures
            match r {
                Some(c) => self.rest().len() > 0 && c == self.rest()[0],
                None => self.rest().len() == 0,
            },
    {
        if self.pos < self.len {
            Some(self.input.get_char(self.pos))
        } else {
            None
        }
    }

    /// Consumes and returns the next character.
    fn next_char(&mut self) -> (r: Option<char>)
        requires
            old(self).wf(),
        ensures
            final(self).wf(),
            final(self).input == old(self).input,
            final(self).len == old(self).len,
            match r {
                Some(c) => old(self).rest().len() > 0 && c == old(self).rest()[0]
                    && final(self).pos == old(self).pos + 1,
                None => old(self).rest().len() == 0 && final(self).pos == old(self).pos,
            },
    {
        if self.pos < self.len {
            let c = self.input.get_char(self.pos);
            self.pos = self.pos + 1;
            Some(c)
        } else {
            None
        }
    }

    /// Scans the rest of an unquoted literal.  The characters from `start`
    /// to the current position have already been accepted as its text.
    fn scan_unquoted(&mut self, start: usize) -> (r: Token)
        requires
            old(self).wf(),
            start <= old(self).pos,
        ensures
            final(self).wf(),
            final(self).input == old(self).input,
            final(self).len == old(self).len,
            final(self).pos >= old(self).pos,
            lex_unquoted(
                old(self).rest(),
                old(self).input@.subrange(start as int, old(self).pos as int),
            ) == seq![r@] + lex_root(final(self).rest()),
    {
        loop
            invariant
                self.wf(),
                self.input == old(self).input,
                self.len == old(self).len,
                start <= self.pos,
                self.pos >= old(self).pos,
                lex_unquoted(
                    old(self).rest(),
                    old(self).input@.subrange(start as int, old(self).pos as int),
                ) == lex_unquoted(
                    self.rest(),
                    self.input@.subrange(start as int, self.pos as int),
                ),
            decreases self.len - self.pos,
        {
            let ghost pre = *self;
            let ghost acc = self.input@.subrange(start as int, self.pos as int);
            match self.peek_char() {
                None => {
                    let text = self.input.substring_char(start, self.pos);
                    proof {
                        assert(lex_unquoted(pre.rest(), acc) =~= seq![TokenV::Literal(acc)]
                            + lex_root(self.rest()));
                    }
                    return Token::Literal(text.to_owned());
                },
                Some(c) => {
                    if c == '&' || c == '=' {
                        let text = self.input.substring_char(start, self.pos);
                        proof {
                            assert(pre.rest().skip(1) =~= self.input@.skip(self.pos + 1));
                            assert(lex_unquoted(pre.rest(), acc) =~= seq![TokenV::Literal(acc)]
                                + lex_root(self.rest()));
                        }
                        return Token::Literal(text.to_owned());
                    }
                    self.pos = self.pos + 1;
                    proof {
                        assert(pre.rest().skip(1) =~= self.rest());
                        assert(acc.push(pre.rest()[0]) =~= self.input@.subrange(
                            start as int,
                            self.pos as int,
                        ));
                    }
                },
            }
        }
    }

    /// Scans the rest of a quoted literal, the opening quote already
    /// consumed.
    fn scan_quoted(&mut self) -> (r: Token)
        requires
            old(self).wf(),
        ensures
            final(self).wf(),
            final(self).input == old(self).input,
            final(self).len == old(self).len,
            final(self).pos >= old(self).pos,
            lex_quoted(old(self).rest(), Seq::empty()) == seq![r@] + lex_root(final(self).rest()),
    {
        let mut acc = String::new();
        let mut seg_start = self.pos;
        loop
            invariant
                self.wf(),
                self.input == old(self).input,
                self.len == old(self).len,
                seg_start <= self.pos,
                self.pos >= old(self).pos,
                lex_quoted(old(self).rest(), Seq::empty()) == lex_quoted(
                    self.rest(),
                    acc@ + self.input@.subrange(seg_start as int, self.pos as int),
                ),
            decreases self.len - self.pos,
        {
            let ghost pre = *self;
            let ghost cur = acc@ + self.input@.subrange(seg_start as int, self.pos as int);
            match self.peek_char() {
                None => {
                    let tail = self.input.substring_char(seg_start, self.pos);
                    acc.append(tail);
                    proof {
                        assert(acc@ =~= cur);
                        assert(lex_quoted(pre.rest(), cur) =~= seq![TokenV::Literal(cur)]
                            + lex_root(self.rest()));
                    }
                    return Token::Literal(acc);
                },
                Some(c) => {
                    if c == '"' {
                        let tail = self.input.substring_char(seg_start, self.pos);
                        acc.append(tail);
                        self.pos = self.pos + 1;
                        proof {
                            assert(acc@ =~= cur);
                            assert(pre.rest().skip(1) =~= self.rest());
                            assert(lex_quoted(pre.rest(), cur) =~= seq![TokenV::Literal(cur)]
                                + lex_root(self.rest()));
                        }
                        return Token::Literal(acc);
                    }
                    if c == '\\' {
                        let tail = self.input.substring_char(seg_start, self.pos);
                        acc.append(tail);
                        self.pos = self.pos + 1;
                        if self.pos < self.len {
                            seg_start = self.pos;
                            self.pos = self.pos + 1;
                            proof {
                                assert(pre.rest().skip(2) =~= self.rest());
                                assert(pre.rest()[1] == self.input@[self.pos - 1]);
                                assert(acc@ + self.input@.subrange(
                                    seg_start as int,
                                    self.pos as int,
                                ) =~= cur.push(pre.rest()[1]));
                            }
                        } else {
                            proof {
                                assert(acc@ =~= cur);
                                assert(pre.rest().len() == 1);
                                assert(lex_quoted(pre.rest(), cur) =~= seq![TokenV::Literal(cur)]
                                    + lex_root(self.rest()));
                            }
                            return Token::Literal(acc);
                        }
                    } else {
                        self.pos = self.pos + 1;
                        proof {
                            assert(pre.rest().skip(1) =~= self.rest());
                            assert(acc@ + self.input@.subrange(seg_start as int, self.pos as int)
                                =~= cur.push(pre.rest()[0]));
                        }
                    }
                },
            }
        }
    }

    /// Produces the next token, or `None` at the end of the input.
    pub fn next_token(&mut self) -> (r: Option<Token>)
        requires
            old(self).wf(),
        ensures
            final(self).wf(),
            final(self).input == old(self).input,
            final(self).len == old(self).len,
            match r {
                None => old(self).remaining().len() == 0 && final(self).pos == old(self).pos,
                Some(t) => old(self).remaining() == seq![t@] + final(self).remaining()
                    && old(self).pos < final(self).pos,
            },
    {
        let ghost entry = *self;
        let c = match self.peek_char() {
            None => {
                return None;
            },
            Some(c) => c,
        };
        if c == '&' {
            self.next_char();
            proof {
                assert(entry.rest().skip(1) =~= self.rest());
            }
            return Some(Token::Ampersand);
        }
        if c == '=' {
            self.next_char();
            proof {
                assert(entry.rest().skip(1) =~= self.rest());
            }
            return Some(Token::Assign);
        }
        if c == '"' {
            self.next_char();
            proof {
                assert(entry.rest().skip(1) =~= self.rest());
            }
            let tok = self.scan_quoted();
            return Some(tok);
        }
        // Any other character opens an unquoted literal and is its first
        // character.
        let start = self.pos;
        self.next_char();
        proof {
            assert(entry.rest().skip(1) =~= self.rest());
            assert(self.input@.subrange(start as int, self.pos as int) =~= seq![entry.rest()[0]]);
        }
        let tok = self.scan_unquoted(start);
        Some(tok)
    }
}

} // verus!
