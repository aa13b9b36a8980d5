//! Round-trip laws tying the encode writer to the decode front end.
//!
//! The scalar laws live beside the scalar codecs in `num`.  Here stand,
//! bottom up: the leaf laws (a quoted string leaf and an unquoted scalar
//! leaf each scan back as exactly the literal token they encode), the
//! document law (a wire-safe pair list's text parses back to its pairs),
//! the sequence laws (an encoded sequence carries exactly the indexed
//! pairs plus its `$length`), the assembly laws (the assembler inverts
//! the writer's path flattening), and their composition
//! [`lemma_record_round_trip`]: the flattened text of a nested record
//! parses and assembles back into exactly the record's decode tree.

use vstd::prelude::*;

use crate::de::{is_false_text, is_true_text};
use crate::lexer::{lex_quoted, lex_root, lex_unquoted, TokenV};
use crate::num::u64_text;
use crate::parser::{assemble, parse_toks, spec_set, spec_split_path, split_acc, ValueV as TreeV};
use crate::ser::{escape, flat, flat_elems, flat_entries, prefix_of, quote, ValueV};

verus! {

/// A boolean leaf decodes back to the boolean it encodes: the text that
/// `encode_bool` writes satisfies exactly one of the two decode tests.
pub proof fn lemma_bool_round_trip(v: bool)
    ensures
        is_true_text(
            if v {
                "true"@
            } else {
                "false"@
            },
        ) == v,
        is_false_text(
            if v {
                "true"@
            } else {
                "false"@
            },
        ) == !v,
{
    reveal_strlit("true");
    reveal_strlit("false");
}

/// Front decomposition of the escaped text.
proof fn lemma_escape_first(s: Seq<char>)
    requires
        s.len() > 0,
    ensures
        escape(s) == (if s[0] == '"' {
            seq!['\\', '"']
        } else {
            seq![s[0]]
        }) + escape(s.drop_first()),
    decreases s.len(),
{
    let piece = if s[0] == '"' {
        seq!['\\', '"']
    } else {
        seq![s[0]]
    };
    if s.len() == 1 {
        assert(s.drop_last() =~= Seq::<char>::empty());
        assert(s.drop_first() =~= Seq::<char>::empty());
        assert(s.last() == s[0]);
        assert(escape(s) =~= piece + escape(s.drop_first()));
    } else {
        lemma_escape_first(s.drop_last());
        assert(s.drop_last()[0] == s[0]);
        assert(s.drop_last().drop_first() =~= s.drop_first().drop_last());
        assert(s.drop_first().last() == s.last());
        assert(s.drop_first().len() > 0);
        if s.last() == '"' {
            assert(escape(s) =~= piece + (escape(s.drop_first().drop_last()) + seq!['\\', '"']));
            assert(escape(s.drop_first()) == escape(s.drop_first().drop_last()) + seq!['\\', '"']);
        } else {
            assert(escape(s) =~= piece + escape(s.drop_first().drop_last()).push(s.last()));
            assert(escape(s.drop_first()) == escape(s.drop_first().drop_last()).push(s.last()));
        }
    }
}

/// Scanning the escaped text of `s` inside a quoted literal appends `s`
/// to the accumulator, provided `s` holds no literal backslash.
proof fn lemma_lex_escaped(s: Seq<char>, acc: Seq<char>, tail: Seq<char>)
    requires
        forall|i: int| 0 <= i < s.len() ==> s[i] != '\\',
    ensures
        lex_quoted(escape(s) + tail, acc) == lex_quoted(tail, acc + s),
    decreases s.len(),
{
    if s.len() == 0 {
        assert(escape(s) + tail =~= tail);
        assert(acc + s =~= acc);
    } else {
        lemma_escape_first(s);
        let rest = s.drop_first();
        let t = escape(s) + tail;
        if s[0] == '"' {
            assert(t[0] == '\\');
            assert(t.len() >= 2);
            assert(t[1] == '"');
            assert(t.skip(2) =~= escape(rest) + tail);
            lemma_lex_escaped(rest, acc.push('"'), tail);
            assert(acc.push('"') + rest =~= acc + s);
        } else {
            assert(t[0] == s[0]);
            assert(s[0] != '\\');
            assert(t.skip(1) =~= escape(rest) + tail);
            lemma_lex_escaped(rest, acc.push(s[0]), tail);
            assert(acc.push(s[0]) + rest =~= acc + s);
        }
    }
}

/// A quoted string leaf round-trips through the tokenizer: the text that
/// `encode_str` writes for `s` scans as exactly one literal token holding
/// `s` again, whatever follows it.  The `"` character round-trips because
/// it is escaped on encode.  A literal `\` in `s` is excluded: the writer
/// does not escape it, so the scanner would read it as an escape prefix
/// and the text would not come back unchanged.
pub proof fn lemma_quote_round_trip(s: Seq<char>, rest: Seq<char>)
    requires
        forall|i: int| 0 <= i < s.len() ==> s[i] != '\\',
    ensures
        lex_root(quote(s) + rest) == seq![TokenV::Literal(s)] + lex_root(rest),
{
    let t = quote(s) + rest;
    assert(t[0] == '"');
    assert(t.skip(1) =~= escape(s) + (seq!['"'] + rest));
    lemma_lex_escaped(s, Seq::empty(), seq!['"'] + rest);
    let u = seq!['"'] + rest;
    assert(u[0] == '"');
    assert(u.skip(1) =~= rest);
    assert(Seq::empty() + s =~= s);
}

/// Scanning an unquoted run: the characters of `w` all join the literal,
/// which ends at the separator (or end of input) that follows.
proof fn lemma_lex_unquoted_run(w: Seq<char>, acc: Seq<char>, rest: Seq<char>)
    requires
        forall|i: int| 0 <= i < w.len() ==> w[i] != '&' && w[i] != '=',
        rest.len() == 0 || rest[0] == '&' || rest[0] == '=',
    ensures
        lex_unquoted(w + rest, acc) == seq![TokenV::Literal(acc + w)] + lex_root(rest),
    decreases w.len(),
{
    if w.len() == 0 {
        assert(w + rest =~= rest);
        assert(acc + w =~= acc);
        if rest.len() == 0 {
            assert(lex_unquoted(rest, acc) =~= seq![TokenV::Literal(acc)] + lex_root(rest));
        } else {
            assert(lex_unquoted(rest, acc) =~= seq![TokenV::Literal(acc)] + lex_root(rest));
        }
    } else {
        let t = w + rest;
        assert(t[0] == w[0]);
        assert(t.skip(1) =~= w.drop_first() + rest);
        lemma_lex_unquoted_run(w.drop_first(), acc.push(w[0]), rest);
        assert(acc.push(w[0]) + w.drop_first() =~= acc + w);
    }
}

/// An unquoted scalar leaf round-trips through the tokenizer: a nonempty
/// text free of `&`, `=` and `"` (the decimal integers, `true`, `false`
/// and `null` all are) scans as exactly one literal token holding the
/// same text, ended by the separator or the end of the input.
pub proof fn lemma_unquoted_literal(w: Seq<char>, rest: Seq<char>)
    requires
        w.len() > 0,
        forall|i: int| 0 <= i < w.len() ==> w[i] != '&' && w[i] != '=' && w[i] != '"',
        rest.len() == 0 || rest[0] == '&' || rest[0] == '=',
    ensures
        lex_root(w + rest) == seq![TokenV::Literal(w)] + lex_root(rest),
{
    let t = w + rest;
    assert(t[0] == w[0]);
    assert(t.skip(1) =~= w.drop_first() + rest);
    lemma_lex_unquoted_run(w.drop_first(), seq![w[0]], rest);
    assert(seq![w[0]] + w.drop_first() =~= w);
}

/// A key that survives the wire unquoted: nonempty and free of the three
/// structural characters.
pub open spec fn wire_key(k: Seq<char>) -> bool {
    k.len() > 0 && forall|i: int| 0 <= i < k.len() ==> k[i] != '&' && k[i] != '=' && k[i] != '"'
}

/// One pair as the writer renders it: a key, a leaf text, and whether the
/// leaf is written quoted.  An unquoted leaf must itself be wire-safe (the
/// decimal integers, `true`, `false` and `null` all are); a quoted leaf
/// must hold no literal backslash.
pub open spec fn wire_pair(p: (Seq<char>, Seq<char>, bool)) -> bool {
    wire_key(p.0) && if p.2 {
        forall|i: int| 0 <= i < p.1.len() ==> p.1[i] != '\\'
    } else {
        wire_key(p.1)
    }
}

pub open spec fn leaf_text(p: (Seq<char>, Seq<char>, bool)) -> Seq<char> {
    if p.2 {
        quote(p.1)
    } else {
        p.1
    }
}

/// The document text of a rendered pair list, one `key=value&` line per
/// pair, as the writer emits it before the trailing separator is
/// stripped.
pub open spec fn doc_text(ps: Seq<(Seq<char>, Seq<char>, bool)>) -> Seq<char>
    decreases ps.len(),
{
    if ps.len() == 0 {
        Seq::empty()
    } else {
        ps[0].0 + seq!['='] + leaf_text(ps[0]) + seq!['&'] + doc_text(ps.drop_first())
    }
}

/// The pairs a rendered pair list denotes.
pub open spec fn doc_pairs(ps: Seq<(Seq<char>, Seq<char>, bool)>) -> Seq<(Seq<char>, Seq<char>)> {
    ps.map_values(|p: (Seq<char>, Seq<char>, bool)| (p.0, p.1))
}

/// A whole document of leaves round-trips from pairs to pairs: the text
/// the writer emits for any wire-safe pair list tokenizes and parses back
/// to exactly the keys and leaf texts it was written from.
pub proof fn lemma_document_round_trip(ps: Seq<(Seq<char>, Seq<char>, bool)>)
    requires
        forall|i: int| 0 <= i < ps.len() ==> wire_pair(#[trigger] ps[i]),
    ensures
        parse_toks(lex_root(doc_text(ps))) == Ok::<_, int>(doc_pairs(ps)),
    decreases ps.len(),
{
    if ps.len() == 0 {
        assert(doc_pairs(ps) =~= Seq::<(Seq<char>, Seq<char>)>::empty());
    } else {
        let p = ps[0];
        let k = p.0;
        let lv = leaf_text(p);
        let tail = ps.drop_first();
        assert(wire_pair(p));
        let r1 = seq!['='] + lv + seq!['&'] + doc_text(tail);
        assert(doc_text(ps) =~= k + r1);
        assert(r1[0] == '=');
        lemma_unquoted_literal(k, r1);
        let r2 = lv + seq!['&'] + doc_text(tail);
        assert(r1.skip(1) =~= r2);
        let r3 = seq!['&'] + doc_text(tail);
        assert(r3[0] == '&');
        if p.2 {
            assert(quote(p.1) + r3 =~= r2);
            lemma_quote_round_trip(p.1, r3);
        } else {
            assert(p.1 + r3 =~= r2);
            lemma_unquoted_literal(p.1, r3);
        }
        assert(r3.skip(1) =~= doc_text(tail));
        assert forall|i: int| 0 <= i < tail.len() implies wire_pair(#[trigger] tail[i]) by {
            assert(tail[i] == ps[i + 1]);
        }
        lemma_document_round_trip(tail);
        let tt = lex_root(doc_text(tail));
        let toks = lex_root(doc_text(ps));
        assert(toks =~= seq![
            TokenV::Literal(k),
            TokenV::Assign,
            TokenV::Literal(p.1),
            TokenV::Ampersand,
        ] + tt);
        assert(toks.skip(4) =~= tt);
        assert(doc_pairs(ps) =~= seq![(k, p.1)] + doc_pairs(tail));
    }
}

/// Splitting distributes over a dot: the assembler's key splitting
/// inverts the writer's path joining.
proof fn lemma_split_acc_dot(a: Seq<char>, b: Seq<char>, cur: Seq<char>)
    ensures
        split_acc(a + seq!['.'] + b, cur) == split_acc(a, cur) + spec_split_path(b),
    decreases a.len(),
{
    let t = a + seq!['.'] + b;
    if a.len() == 0 {
        assert(t[0] == '.');
        assert(t.skip(1) =~= b);
        assert(split_acc(t, cur) =~= seq![cur] + split_acc(b, Seq::empty()));
    } else {
        assert(t[0] == a[0]);
        assert(t.skip(1) =~= a.drop_first() + seq!['.'] + b);
        if a[0] == '.' {
            assert(a.skip(1) =~= a.drop_first());
            lemma_split_acc_dot(a.drop_first(), b, Seq::empty());
            assert(split_acc(t, cur) =~= seq![cur] + (split_acc(a.drop_first(), Seq::empty())
                + spec_split_path(b)));
            assert(split_acc(a, cur) =~= seq![cur] + split_acc(a.drop_first(), Seq::empty()));
        } else {
            assert(a.skip(1) =~= a.drop_first());
            lemma_split_acc_dot(a.drop_first(), b, cur.push(a[0]));
        }
    }
}

/// The writer joins a child's key to its parent's path with a `.`; the
/// assembler splits the joined key back into exactly the parent's
/// segments followed by the child's.
pub proof fn lemma_split_joined_path(parent: Seq<char>, child: Seq<char>)
    ensures
        spec_split_path(parent + seq!['.'] + child) == spec_split_path(parent) + spec_split_path(
            child,
        ),
{
    lemma_split_acc_dot(parent, child, Seq::empty());
}

/// A key free of dots is a single path segment.
pub proof fn lemma_split_single_segment(s: Seq<char>)
    requires
        forall|i: int| 0 <= i < s.len() ==> s[i] != '.',
    ensures
        spec_split_path(s) == seq![s],
{
    lemma_split_acc_plain(s, Seq::empty());
    assert(Seq::empty() + s =~= s);
}

proof fn lemma_split_acc_plain(s: Seq<char>, cur: Seq<char>)
    requires
        forall|i: int| 0 <= i < s.len() ==> s[i] != '.',
    ensures
        split_acc(s, cur) == seq![cur + s],
    decreases s.len(),
{
    if s.len() == 0 {
        assert(cur + s =~= cur);
    } else {
        assert(s.skip(1) =~= s.drop_first());
        lemma_split_acc_plain(s.drop_first(), cur.push(s[0]));
        assert(cur.push(s[0]) + s.drop_first() =~= cur + s);
    }
}

/// The rendered pair list of a sequence node of `n` leaves at `path`:
/// one pair per index `0..n-1` in order, then the `$length` pair.
pub open spec fn seq_wire_pairs(vs: Seq<ValueV>, path: Seq<char>) -> Seq<
    (Seq<char>, Seq<char>, bool),
> {
    Seq::new(
        (vs.len() + 1) as nat,
        |i: int|
            if i < vs.len() {
                (prefix_of(path) + u64_text(i), vs[i]->Single_0, false)
            } else {
                (prefix_of(path) + "$length"@, u64_text(vs.len() as int), false)
            },
    )
}

/// The flattened text of a sequence of leaves is the document of its
/// index pairs followed by the `$length` pair.
proof fn lemma_seq_flat_is_doc(vs: Seq<ValueV>, path: Seq<char>, i: int)
    requires
        forall|j: int| 0 <= j < vs.len() ==> vs[j] is Single,
        0 <= i <= vs.len(),
    ensures
        doc_text(seq_wire_pairs(vs, path).skip(i)) == flat_elems(vs, prefix_of(path), i) + (
        prefix_of(path) + "$length"@) + seq!['='] + u64_text(vs.len() as int) + seq!['&'],
    decreases vs.len() - i,
{
    let pre = prefix_of(path);
    let n = vs.len() as int;
    let ps = seq_wire_pairs(vs, path);
    let lline = (pre + "$length"@) + seq!['='] + u64_text(n) + seq!['&'];
    if i == n {
        assert(ps.skip(i) =~= seq![ps[n]]);
        assert(ps.skip(i).drop_first() =~= Seq::<(Seq<char>, Seq<char>, bool)>::empty());
        assert(ps[n].0 == pre + "$length"@);
        assert(ps[n].1 == u64_text(n));
        assert(!ps[n].2);
        assert(leaf_text(ps[n]) == u64_text(n));
        assert(ps.skip(i)[0] == ps[n]);
        assert(doc_text(ps.skip(i)) == ps[n].0 + seq!['='] + leaf_text(ps[n]) + seq!['&']
            + doc_text(ps.skip(i).drop_first()));
        assert(doc_text(ps.skip(i)) =~= lline);
        assert(flat_elems(vs, pre, i) =~= Seq::<char>::empty());
        assert(flat_elems(vs, pre, i) + lline =~= lline);
    } else {
        lemma_seq_flat_is_doc(vs, path, i + 1);
        assert(ps.skip(i).drop_first() =~= ps.skip(i + 1));
        assert(ps.skip(i)[0] == ps[i]);
        reveal_strlit("=");
        reveal_strlit("&");
        assert("="@ =~= seq!['=']);
        assert("&"@ =~= seq!['&']);
        assert(flat(vs[i], pre + u64_text(i)) == (pre + u64_text(i)) + "="@ + vs[i]->Single_0
            + "&"@);
        assert(doc_text(ps.skip(i)) =~= flat_elems(vs, pre, i) + lline);
    }
}

/// The wire shape of an encoded sequence: flattening a sequence node of
/// `n` leaves emits exactly the pairs under the keys `0`, …, `n-1`, in
/// order, followed by the `$length` pair holding `n` — and nothing else.
pub proof fn lemma_sequence_wire_shape(vs: Seq<ValueV>, path: Seq<char>)
    requires
        forall|j: int| 0 <= j < vs.len() ==> vs[j] is Single,
    ensures
        flat(ValueV::Sequence(vs), path) == doc_text(seq_wire_pairs(vs, path)),
{
    let pre = prefix_of(path);
    let n = vs.len() as int;
    lemma_seq_flat_is_doc(vs, path, 0);
    assert(seq_wire_pairs(vs, path).skip(0) =~= seq_wire_pairs(vs, path));
    reveal_strlit("$length=");
    reveal_strlit("$length");
    reveal_strlit("=");
    reveal_strlit("&");
    assert("$length="@ =~= "$length"@ + seq!['=']);
    assert("&"@ =~= seq!['&']);
    assert(flat(ValueV::Sequence(vs), path) =~= flat_elems(vs, pre, 0) + (pre + "$length"@)
        + seq!['='] + u64_text(n) + seq!['&']);
}

/// The decimal text of a non-negative integer is wire-safe: nonempty and
/// free of the structural characters.
proof fn lemma_decimal_is_wire_key(n: int)
    requires
        0 <= n,
    ensures
        wire_key(u64_text(n)),
{
    crate::num::lemma_u64_text_digits(n);
}

/// The sequence length invariant, through the whole front end: the text
/// of an encoded sequence of `n` wire-safe leaves at a wire-safe path
/// tokenizes and parses back to exactly the pairs under the keys `0`, …,
/// `n-1` plus the `$length` pair holding `n` — no more, no fewer.
pub proof fn lemma_sequence_round_trip(vs: Seq<ValueV>, path: Seq<char>)
    requires
        forall|j: int| 0 <= j < vs.len() ==> (#[trigger] vs[j]) is Single,
        forall|j: int| 0 <= j < vs.len() ==> wire_key((#[trigger] vs[j])->Single_0),
        forall|i: int| 0 <= i < path.len() ==> path[i] != '&' && path[i] != '=' && path[i] != '"',
    ensures
        parse_toks(lex_root(flat(ValueV::Sequence(vs), path))) == Ok::<_, int>(
            doc_pairs(seq_wire_pairs(vs, path)),
        ),
{
    lemma_sequence_wire_shape(vs, path);
    let pre = prefix_of(path);
    let ps = seq_wire_pairs(vs, path);
    reveal_strlit(".");
    reveal_strlit("$length");
    assert(forall|i: int| 0 <= i < pre.len() ==> pre[i] != '&' && pre[i] != '=' && pre[i] != '"');
    assert forall|i: int| 0 <= i < ps.len() implies wire_pair(#[trigger] ps[i]) by {
        if i < vs.len() {
            lemma_decimal_is_wire_key(i);
            let k = pre + u64_text(i);
            assert(forall|j: int|
                0 <= j < k.len() ==> k[j] != '&' && k[j] != '=' && k[j] != '"');
            assert(wire_key(ps[i].0));
        } else {
            lemma_decimal_is_wire_key(vs.len() as int);
            let k = pre + "$length"@;
            assert(forall|j: int|
                0 <= j < k.len() ==> k[j] != '&' && k[j] != '=' && k[j] != '"');
            assert(wire_key(ps[i].0));
        }
    }
    lemma_document_round_trip(ps);
}

/// The decode tree of a flat pair list: one leaf per key, a later pair
/// winning a repeated key.
pub open spec fn leaf_map(qs: Seq<(Seq<char>, Seq<char>)>) -> Map<Seq<char>, TreeV>
    decreases qs.len(),
{
    if qs.len() == 0 {
        Map::empty()
    } else {
        leaf_map(qs.drop_last()).insert(qs.last().0, TreeV::Single(qs.last().1))
    }
}

/// Assembling pairs whose keys hold no dot builds one level of mapping:
/// each key a leaf, nothing nested.
proof fn lemma_assemble_flat(qs: Seq<(Seq<char>, Seq<char>)>)
    requires
        forall|i: int, j: int|
            0 <= i < qs.len() && 0 <= j < (#[trigger] qs[i]).0.len() ==> #[trigger] qs[i].0[j]
                != '.',
    ensures
        assemble(qs) == TreeV::Mapping(leaf_map(qs)),
    decreases qs.len(),
{
    if qs.len() > 0 {
        assert forall|i: int, j: int|
            0 <= i < qs.drop_last().len() && 0 <= j
                < (#[trigger] qs.drop_last()[i]).0.len() implies #[trigger] qs.drop_last()[i].0[j]
            != '.' by {
            assert(qs.drop_last()[i] == qs[i]);
        }
        lemma_assemble_flat(qs.drop_last());
        let k = qs.last().0;
        assert(qs.last() == qs[qs.len() - 1]);
        assert forall|j: int| 0 <= j < k.len() implies k[j] != '.' by {
            assert(qs[qs.len() - 1].0[j] != '.');
        }
        lemma_split_single_segment(k);
        assert(seq![k].skip(1) =~= Seq::<Seq<char>>::empty());
        assert(seq![k][0] == k);
        let v = qs.last().1;
        let m0 = leaf_map(qs.drop_last());
        let child = if m0.contains_key(k) {
            m0[k]
        } else {
            TreeV::Mapping(Map::empty())
        };
        assert(assemble(qs) == spec_set(TreeV::Mapping(m0), seq![k], v));
        assert(spec_set(child, seq![k].skip(1), v) == TreeV::Single(v));
        assert(spec_set(TreeV::Mapping(m0), seq![k], v) == TreeV::Mapping(
            m0.insert(k, TreeV::Single(v)),
        ));
        assert(leaf_map(qs) == m0.insert(k, TreeV::Single(v)));
    }
}

/// A flat document decodes to exactly the map it was written from: the
/// text of a wire-safe pair list with dot-free keys parses back to its
/// pairs, and assembling those pairs yields the one-level tree holding
/// each key's leaf.
pub proof fn lemma_flat_document_decode(ps: Seq<(Seq<char>, Seq<char>, bool)>)
    requires
        forall|i: int| 0 <= i < ps.len() ==> wire_pair(#[trigger] ps[i]),
        forall|i: int, j: int|
            0 <= i < ps.len() && 0 <= j < (#[trigger] ps[i]).0.len() ==> #[trigger] ps[i].0[j]
                != '.',
    ensures
        parse_toks(lex_root(doc_text(ps))) == Ok::<_, int>(doc_pairs(ps)),
        assemble(doc_pairs(ps)) == TreeV::Mapping(leaf_map(doc_pairs(ps))),
{
    lemma_document_round_trip(ps);
    let qs = doc_pairs(ps);
    assert forall|i: int, j: int|
        0 <= i < qs.len() && 0 <= j < (#[trigger] qs[i]).0.len() implies #[trigger] qs[i].0[j]
        != '.' by {
        assert(qs[i] == (ps[i].0, ps[i].1));
    }
    lemma_assemble_flat(qs);
}

/// Assembling a pair list whose paths are already split into segments.
pub open spec fn sp_assemble(v: TreeV, qs: Seq<(Seq<Seq<char>>, Seq<char>)>) -> TreeV
    decreases qs.len(),
{
    if qs.len() == 0 {
        v
    } else {
        spec_set(sp_assemble(v, qs.drop_last()), qs.last().0, qs.last().1)
    }
}

proof fn lemma_sp_assemble_concat(
    v: TreeV,
    a: Seq<(Seq<Seq<char>>, Seq<char>)>,
    b: Seq<(Seq<Seq<char>>, Seq<char>)>,
)
    ensures
        sp_assemble(v, a + b) == sp_assemble(sp_assemble(v, a), b),
    decreases b.len(),
{
    if b.len() == 0 {
        assert(a + b =~= a);
    } else {
        assert((a + b).drop_last() =~= a + b.drop_last());
        assert((a + b).last() == b.last());
        lemma_sp_assemble_concat(v, a, b.drop_last());
    }
}

/// Grafts `t` at the path `p` below `v`, creating or replacing nodes as
/// the assembler's descent does.
pub open spec fn graft(v: TreeV, p: Seq<Seq<char>>, t: TreeV) -> TreeV
    decreases p.len(),
{
    if p.len() == 0 {
        t
    } else {
        let m0 = if v is Mapping {
            v->Mapping_0
        } else {
            Map::empty()
        };
        let child = if m0.contains_key(p[0]) {
            m0[p[0]]
        } else {
            TreeV::Mapping(Map::empty())
        };
        TreeV::Mapping(m0.insert(p[0], graft(child, p.skip(1), t)))
    }
}

/// Setting a leaf is grafting a leaf.
proof fn lemma_set_is_graft(v: TreeV, p: Seq<Seq<char>>, val: Seq<char>)
    ensures
        spec_set(v, p, val) == graft(v, p, TreeV::Single(val)),
    decreases p.len(),
{
    if p.len() > 0 {
        let m0 = if v is Mapping {
            v->Mapping_0
        } else {
            Map::<Seq<char>, TreeV>::empty()
        };
        let child = if m0.contains_key(p[0]) {
            m0[p[0]]
        } else {
            TreeV::Mapping(Map::empty())
        };
        lemma_set_is_graft(child, p.skip(1), val);
    }
}

/// Nothing of `v` survives below the path `p`: somewhere along it a key
/// is absent or a leaf stands, and the assembler discards both on
/// descent.
pub open spec fn fresh_at(v: TreeV, p: Seq<Seq<char>>) -> bool
    decreases p.len(),
{
    if p.len() == 0 {
        false
    } else {
        let m0 = if v is Mapping {
            v->Mapping_0
        } else {
            Map::empty()
        };
        if !m0.contains_key(p[0]) {
            true
        } else if m0[p[0]] is Single {
            true
        } else if p.len() == 1 {
            false
        } else {
            fresh_at(m0[p[0]], p.skip(1))
        }
    }
}

/// A place where assembly starts from nothing: a fresh path, or the
/// empty path over the empty root.
pub open spec fn blank_at(v: TreeV, p: Seq<Seq<char>>) -> bool {
    fresh_at(v, p) || (p.len() == 0 && v == TreeV::Mapping(Map::<Seq<char>, TreeV>::empty()))
}

proof fn lemma_fresh_extend(v: TreeV, p: Seq<Seq<char>>, k: Seq<char>)
    requires
        blank_at(v, p),
    ensures
        fresh_at(v, p.push(k)),
    decreases p.len(),
{
    if p.len() == 0 {
        assert(p.push(k)[0] == k);
    } else {
        assert(p.push(k)[0] == p[0]);
        let m0 = if v is Mapping {
            v->Mapping_0
        } else {
            Map::<Seq<char>, TreeV>::empty()
        };
        if m0.contains_key(p[0]) && !(m0[p[0]] is Single) {
            assert(p.push(k).skip(1) =~= p.skip(1).push(k));
            lemma_fresh_extend(m0[p[0]], p.skip(1), k);
        }
    }
}

/// Below a freshly grafted mapping, any key it does not hold is fresh.
proof fn lemma_fresh_under_graft(v0: TreeV, p: Seq<Seq<char>>, m: Map<Seq<char>, TreeV>, k: Seq<char>)
    requires
        !m.contains_key(k),
    ensures
        fresh_at(graft(v0, p, TreeV::Mapping(m)), p.push(k)),
    decreases p.len(),
{
    if p.len() == 0 {
        assert(p.push(k)[0] == k);
    } else {
        let t = graft(v0, p, TreeV::Mapping(m));
        let m0 = if v0 is Mapping {
            v0->Mapping_0
        } else {
            Map::<Seq<char>, TreeV>::empty()
        };
        let child = if m0.contains_key(p[0]) {
            m0[p[0]]
        } else {
            TreeV::Mapping(Map::empty())
        };
        assert(p.push(k)[0] == p[0]);
        assert(p.push(k).skip(1) =~= p.skip(1).push(k));
        lemma_fresh_under_graft(child, p.skip(1), m, k);
        if p.len() == 1 {
            assert(graft(child, p.skip(1), TreeV::Mapping(m)) == TreeV::Mapping(m));
        }
    }
}

/// Grafting deeper below an already grafted mapping inserts into it.
proof fn lemma_graft_graft(
    v0: TreeV,
    p: Seq<Seq<char>>,
    m: Map<Seq<char>, TreeV>,
    k: Seq<char>,
    t: TreeV,
)
    ensures
        graft(graft(v0, p, TreeV::Mapping(m)), p.push(k), t) == graft(
            v0,
            p,
            TreeV::Mapping(m.insert(k, t)),
        ),
    decreases p.len(),
{
    if p.len() == 0 {
        assert(p.push(k)[0] == k);
        assert(p.push(k).skip(1) =~= Seq::<Seq<char>>::empty());
        assert(graft(v0, p, TreeV::Mapping(m)) == TreeV::Mapping(m));
        let c = if m.contains_key(k) {
            m[k]
        } else {
            TreeV::Mapping(Map::empty())
        };
        assert(graft(c, p.push(k).skip(1), t) == t);
        assert(graft(TreeV::Mapping(m), p.push(k), t) == TreeV::Mapping(m.insert(k, t)));
        assert(graft(v0, p, TreeV::Mapping(m.insert(k, t))) == TreeV::Mapping(m.insert(k, t)));
    } else {
        let m0 = if v0 is Mapping {
            v0->Mapping_0
        } else {
            Map::<Seq<char>, TreeV>::empty()
        };
        let child = if m0.contains_key(p[0]) {
            m0[p[0]]
        } else {
            TreeV::Mapping(Map::empty())
        };
        assert(p.push(k)[0] == p[0]);
        assert(p.push(k).skip(1) =~= p.skip(1).push(k));
        lemma_graft_graft(child, p.skip(1), m, k, t);
        let g1 = graft(child, p.skip(1), TreeV::Mapping(m));
        let lifted = graft(g1, p.skip(1).push(k), t);
        let outer = graft(v0, p, TreeV::Mapping(m));
        assert(outer == TreeV::Mapping(m0.insert(p[0], g1)));
        assert(m0.insert(p[0], g1).contains_key(p[0]));
        assert(m0.insert(p[0], g1)[p[0]] == g1);
        assert(graft(g1, p.push(k).skip(1), t) == lifted);
        assert(graft(outer, p.push(k), t) == TreeV::Mapping(
            m0.insert(p[0], g1).insert(p[0], lifted),
        ));
        assert(m0.insert(p[0], g1).insert(p[0], lifted) =~= m0.insert(p[0], lifted));
        assert(lifted == graft(child, p.skip(1), TreeV::Mapping(m.insert(k, t))));
        assert(graft(v0, p, TreeV::Mapping(m.insert(k, t))) == TreeV::Mapping(
            m0.insert(p[0], graft(child, p.skip(1), TreeV::Mapping(m.insert(k, t)))),
        ));
    }
}

/// Grafting one step below a blank place builds the one-entry mapping
/// there.
proof fn lemma_graft_blank_factor(v: TreeV, p: Seq<Seq<char>>, k: Seq<char>, t: TreeV)
    requires
        blank_at(v, p),
    ensures
        graft(v, p.push(k), t) == graft(
            v,
            p,
            TreeV::Mapping(Map::<Seq<char>, TreeV>::empty().insert(k, t)),
        ),
    decreases p.len(),
{
    let ins = TreeV::Mapping(Map::<Seq<char>, TreeV>::empty().insert(k, t));
    if p.len() == 0 {
        assert(p.push(k)[0] == k);
        assert(p.push(k).skip(1) =~= Seq::<Seq<char>>::empty());
        let m0 = v->Mapping_0;
        let c = if m0.contains_key(k) {
            m0[k]
        } else {
            TreeV::Mapping(Map::empty())
        };
        assert(graft(c, p.push(k).skip(1), t) == t);
        assert(graft(v, p.push(k), t) == TreeV::Mapping(m0.insert(k, t)));
        assert(m0.insert(k, t) =~= Map::<Seq<char>, TreeV>::empty().insert(k, t));
        assert(graft(v, p, ins) == ins);
    } else {
        let m0 = if v is Mapping {
            v->Mapping_0
        } else {
            Map::<Seq<char>, TreeV>::empty()
        };
        let child = if m0.contains_key(p[0]) {
            m0[p[0]]
        } else {
            TreeV::Mapping(Map::empty())
        };
        assert(p.push(k)[0] == p[0]);
        assert(p.push(k).skip(1) =~= p.skip(1).push(k));
        assert(graft(v, p.push(k), t) == TreeV::Mapping(
            m0.insert(p[0], graft(child, p.skip(1).push(k), t)),
        ));
        assert(graft(v, p, ins) == TreeV::Mapping(m0.insert(p[0], graft(child, p.skip(1), ins))));
        if m0.contains_key(p[0]) && !(m0[p[0]] is Single) {
            assert(p.len() > 1);
            assert(blank_at(child, p.skip(1)));
            lemma_graft_blank_factor(child, p.skip(1), k, t);
        } else {
            // The descent discards what stood here: the subtree below is
            // built from the empty mapping either way.
            let base = TreeV::Mapping(Map::<Seq<char>, TreeV>::empty());
            let q = p.skip(1);
            if q.len() == 0 {
                assert(q.push(k)[0] == k);
                assert(q.push(k).skip(1) =~= Seq::<Seq<char>>::empty());
                let cm = if child is Mapping {
                    child->Mapping_0
                } else {
                    Map::<Seq<char>, TreeV>::empty()
                };
                assert(cm =~= Map::<Seq<char>, TreeV>::empty());
                let c2 = if cm.contains_key(k) {
                    cm[k]
                } else {
                    TreeV::Mapping(Map::empty())
                };
                assert(graft(c2, q.push(k).skip(1), t) == t);
                assert(graft(child, q.push(k), t) == TreeV::Mapping(
                    cm.insert(q.push(k)[0], graft(c2, q.push(k).skip(1), t)),
                ));
                assert(graft(child, q.push(k), t) == TreeV::Mapping(cm.insert(k, t)));
                assert(cm.insert(k, t) =~= Map::<Seq<char>, TreeV>::empty().insert(k, t));
                assert(graft(child, q, ins) == ins);
            } else {
                assert(fresh_at(base, q));
                lemma_graft_blank_factor(base, q, k, t);
                let cm = if child is Mapping {
                    child->Mapping_0
                } else {
                    Map::<Seq<char>, TreeV>::empty()
                };
                assert(cm =~= Map::<Seq<char>, TreeV>::empty());
                assert(q.push(k).len() > 0);
                assert(graft(child, q.push(k), t) == graft(base, q.push(k), t));
                assert(graft(child, q, ins) == graft(base, q, ins));
            }
        }
    }
}

/// A record value: nested, uniquely keyed records over text leaves — the
/// shape of the data whose round trip the laws below state.  A leaf
/// carries its text and whether the writer renders it quoted (a string)
/// or bare (a scalar).
pub enum RecordV {
    Leaf(Seq<char>, bool),
    Record(Seq<(Seq<char>, RecordV)>),
}

/// A path segment that survives the wire: nonempty, free of the
/// structural characters, and free of the `.` that separates segments.
pub open spec fn seg_ok(k: Seq<char>) -> bool {
    wire_key(k) && forall|i: int| 0 <= i < k.len() ==> k[i] != '.'
}

/// A record is well formed when every composite holds at least one entry,
/// every key is a wire-safe segment, and no two entries of one composite
/// share a key.
pub open spec fn record_wf(r: RecordV) -> bool
    decreases r,
{
    match r {
        RecordV::Leaf(_, _) => true,
        RecordV::Record(es) => {
            &&& es.len() > 0
            &&& forall|i: int| 0 <= i < es.len() ==> seg_ok((#[trigger] es[i]).0)
            &&& forall|i: int| 0 <= i < es.len() ==> record_wf((#[trigger] es[i]).1)
            &&& forall|i: int, j: int|
                0 <= i < j < es.len() ==> (#[trigger] es[i]).0 != (#[trigger] es[j]).0
        },
    }
}

/// Every leaf survives the wire: a quoted leaf holds no literal
/// backslash, a bare leaf is itself wire-safe.
pub open spec fn record_leaves_ok(r: RecordV) -> bool
    decreases r,
{
    match r {
        RecordV::Leaf(t, quoted) => if quoted {
            forall|i: int| 0 <= i < t.len() ==> t[i] != '\\'
        } else {
            wire_key(t)
        },
        RecordV::Record(es) => forall|i: int|
            0 <= i < es.len() ==> record_leaves_ok((#[trigger] es[i]).1),
    }
}

/// The decode tree a record denotes.
pub open spec fn record_tree(r: RecordV) -> TreeV
    decreases r,
{
    match r {
        RecordV::Leaf(t, _) => TreeV::Single(t),
        RecordV::Record(es) => TreeV::Mapping(record_map(es)),
    }
}

pub open spec fn record_map(es: Seq<(Seq<char>, RecordV)>) -> Map<Seq<char>, TreeV>
    decreases es,
{
    if es.len() == 0 {
        Map::empty()
    } else {
        record_map(es.drop_last()).insert(es.last().0, record_tree(es.last().1))
    }
}

/// The pairs a record flattens to, in emission order, each under its
/// segmented path.
pub open spec fn record_spairs(p: Seq<Seq<char>>, r: RecordV) -> Seq<(Seq<Seq<char>>, Seq<char>)>
    decreases r, 0int,
{
    match r {
        RecordV::Leaf(t, _) => seq![(p, t)],
        RecordV::Record(es) => entries_spairs(es, p, 0),
    }
}

pub open spec fn entries_spairs(es: Seq<(Seq<char>, RecordV)>, p: Seq<Seq<char>>, i: int) -> Seq<
    (Seq<Seq<char>>, Seq<char>),
>
    decreases es, es.len() - i,
{
    if i < 0 || i >= es.len() {
        Seq::empty()
    } else {
        record_spairs(p.push(es[i].0), es[i].1) + entries_spairs(es, p, i + 1)
    }
}

proof fn lemma_record_map_contains(es: Seq<(Seq<char>, RecordV)>, k: Seq<char>)
    ensures
        record_map(es).contains_key(k) <==> exists|i: int|
            0 <= i < es.len() && (#[trigger] es[i]).0 == k,
    decreases es.len(),
{
    if es.len() > 0 {
        lemma_record_map_contains(es.drop_last(), k);
        if es.last().0 == k {
            assert(es[es.len() - 1].0 == k);
        } else if record_map(es).contains_key(k) {
            let i = choose|i: int|
                0 <= i < es.drop_last().len() && (#[trigger] es.drop_last()[i]).0 == k;
            assert(es[i].0 == k);
        } else {
            assert forall|i: int| 0 <= i < es.len() implies (#[trigger] es[i]).0 != k by {
                if i < es.len() - 1 {
                    assert(es.drop_last()[i] == es[i]);
                }
            }
        }
    }
}

/// Assembling the pairs of a well-formed record into a blank place grafts
/// exactly the record's tree there.
pub proof fn lemma_record_assemble(v: TreeV, p: Seq<Seq<char>>, r: RecordV)
    requires
        record_wf(r),
        blank_at(v, p),
    ensures
        sp_assemble(v, record_spairs(p, r)) == graft(v, p, record_tree(r)),
    decreases r, 0int,
{
    match r {
        RecordV::Leaf(t, _) => {
            let qs = record_spairs(p, r);
            assert(qs =~= seq![(p, t)]);
            assert(qs.drop_last() =~= Seq::<(Seq<Seq<char>>, Seq<char>)>::empty());
            assert(qs.last() == (p, t));
            assert(sp_assemble(v, qs.drop_last()) == v);
            assert(sp_assemble(v, qs) == spec_set(v, p, t));
            lemma_set_is_graft(v, p, t);
        },
        RecordV::Record(es) => {
            // The first entry lands in the blank place and opens the
            // record's mapping; each following entry grafts one more key
            // into it.
            lemma_fresh_extend(v, p, es[0].0);
            lemma_record_assemble(v, p.push(es[0].0), es[0].1);
            lemma_graft_blank_factor(v, p, es[0].0, record_tree(es[0].1));
            assert(es.take(1) =~= seq![es[0]]);
            assert(es.take(1).drop_last() =~= Seq::<(Seq<char>, RecordV)>::empty());
            assert(es.take(1).last() == es[0]);
            assert(record_map(es.take(1).drop_last()) =~= Map::<Seq<char>, TreeV>::empty());
            assert(record_map(es.take(1)) == record_map(es.take(1).drop_last()).insert(
                es.take(1).last().0,
                record_tree(es.take(1).last().1),
            ));
            assert(record_map(es.take(1)) =~= Map::<Seq<char>, TreeV>::empty().insert(
                es[0].0,
                record_tree(es[0].1),
            ));
            lemma_sp_assemble_concat(
                v,
                record_spairs(p.push(es[0].0), es[0].1),
                entries_spairs(es, p, 1),
            );
            assert(record_spairs(p, r) == record_spairs(p.push(es[0].0), es[0].1)
                + entries_spairs(es, p, 1));
            lemma_record_entries(v, p, es, 1);
            assert(record_tree(r) == TreeV::Mapping(record_map(es)));
        },
    }
}

/// One step per entry: with the entries before `i` already grafted, the
/// pairs of the entries from `i` on complete the record's mapping.
proof fn lemma_record_entries(v0: TreeV, p: Seq<Seq<char>>, es: Seq<(Seq<char>, RecordV)>, i: int)
    requires
        1 <= i <= es.len(),
        forall|j: int| 0 <= j < es.len() ==> record_wf((#[trigger] es[j]).1),
        forall|j: int, l: int|
            0 <= j < l < es.len() ==> (#[trigger] es[j]).0 != (#[trigger] es[l]).0,
        blank_at(v0, p),
    ensures
        sp_assemble(
            graft(v0, p, TreeV::Mapping(record_map(es.take(i)))),
            entries_spairs(es, p, i),
        ) == graft(v0, p, TreeV::Mapping(record_map(es))),
    decreases es, es.len() - i,
{
    let cur = graft(v0, p, TreeV::Mapping(record_map(es.take(i))));
    if i == es.len() {
        assert(es.take(i) =~= es);
        assert(sp_assemble(cur, entries_spairs(es, p, i)) == cur);
    } else {
        let k = es[i].0;
        let child = es[i].1;
        // The key of entry i is fresh below the grafted mapping.
        lemma_record_map_contains(es.take(i), k);
        assert forall|j: int| 0 <= j < es.take(i).len() implies (#[trigger] es.take(i)[j]).0
            != k by {
            assert(es.take(i)[j] == es[j]);
        }
        assert(!record_map(es.take(i)).contains_key(k));
        lemma_fresh_under_graft(v0, p, record_map(es.take(i)), k);
        lemma_record_assemble(cur, p.push(k), child);
        lemma_graft_graft(v0, p, record_map(es.take(i)), k, record_tree(child));
        assert(es.take(i + 1).drop_last() =~= es.take(i));
        assert(es.take(i + 1).last() == es[i]);
        assert(record_map(es.take(i + 1)) == record_map(es.take(i)).insert(
            k,
            record_tree(child),
        ));
        lemma_sp_assemble_concat(cur, record_spairs(p.push(k), child), entries_spairs(es, p, i + 1));
        lemma_record_entries(v0, p, es, i + 1);
    }
}

/// The dotted key of a segmented path.
pub open spec fn join_segs(p: Seq<Seq<char>>) -> Seq<char>
    decreases p.len(),
{
    if p.len() == 0 {
        Seq::empty()
    } else if p.len() == 1 {
        p[0]
    } else {
        p[0] + seq!['.'] + join_segs(p.drop_first())
    }
}

/// Splitting a dotted key recovers exactly its segments.
proof fn lemma_split_join(p: Seq<Seq<char>>)
    requires
        p.len() > 0,
        forall|j: int, l: int|
            0 <= j < p.len() && 0 <= l < (#[trigger] p[j]).len() ==> #[trigger] p[j][l] != '.',
    ensures
        spec_split_path(join_segs(p)) == p,
    decreases p.len(),
{
    if p.len() == 1 {
        assert forall|l: int| 0 <= l < p[0].len() implies p[0][l] != '.' by {
            assert(p[0][l] != '.');
        }
        lemma_split_single_segment(p[0]);
        assert(seq![p[0]] =~= p);
    } else {
        let rest = p.drop_first();
        assert forall|j: int, l: int|
            0 <= j < rest.len() && 0 <= l < (#[trigger] rest[j]).len() implies #[trigger] rest[j][l]
            != '.' by {
            assert(rest[j] == p[j + 1]);
        }
        lemma_split_join(rest);
        lemma_split_joined_path(p[0], join_segs(rest));
        assert forall|l: int| 0 <= l < p[0].len() implies p[0][l] != '.' by {
            assert(p[0][l] != '.');
        }
        lemma_split_single_segment(p[0]);
        assert(seq![p[0]] + rest =~= p);
    }
}

/// A usable segmented path: nonempty, each segment free of dots.
pub open spec fn path_ok(p: Seq<Seq<char>>) -> bool {
    p.len() > 0 && forall|j: int, l: int|
        0 <= j < p.len() && 0 <= l < (#[trigger] p[j]).len() ==> #[trigger] p[j][l] != '.'
}

/// The string-keyed pairs of a segmented pair list, each path joined
/// with dots.
pub open spec fn joined_pairs(qs: Seq<(Seq<Seq<char>>, Seq<char>)>) -> Seq<(Seq<char>, Seq<char>)> {
    qs.map_values(|q: (Seq<Seq<char>>, Seq<char>)| (join_segs(q.0), q.1))
}

/// The assembler over dotted string keys agrees with assembly over the
/// underlying segments.
proof fn lemma_assemble_vs_sp(qs: Seq<(Seq<Seq<char>>, Seq<char>)>)
    requires
        forall|i: int| 0 <= i < qs.len() ==> path_ok((#[trigger] qs[i]).0),
    ensures
        assemble(joined_pairs(qs)) == sp_assemble(
            TreeV::Mapping(Map::<Seq<char>, TreeV>::empty()),
            qs,
        ),
    decreases qs.len(),
{
    if qs.len() == 0 {
        assert(joined_pairs(qs) =~= Seq::<(Seq<char>, Seq<char>)>::empty());
    } else {
        assert forall|i: int| 0 <= i < qs.drop_last().len() implies path_ok(
            (#[trigger] qs.drop_last()[i]).0,
        ) by {
            assert(qs.drop_last()[i] == qs[i]);
        }
        lemma_assemble_vs_sp(qs.drop_last());
        assert(joined_pairs(qs).drop_last() =~= joined_pairs(qs.drop_last()));
        assert(joined_pairs(qs).last() == (join_segs(qs.last().0), qs.last().1));
        assert(qs.last() == qs[qs.len() - 1]);
        assert(path_ok(qs.last().0));
        lemma_split_join(qs.last().0);
        assert(joined_pairs(qs).len() == qs.len());
    }
}

/// Every path among a well-formed record's pairs is usable: nonempty and
/// made of dot-free segments.
proof fn lemma_record_spairs_paths(p: Seq<Seq<char>>, r: RecordV)
    requires
        record_wf(r),
        forall|j: int, l: int|
            0 <= j < p.len() && 0 <= l < (#[trigger] p[j]).len() ==> #[trigger] p[j][l] != '.',
        p.len() > 0 || r is Record,
    ensures
        forall|i: int|
            0 <= i < record_spairs(p, r).len() ==> path_ok((#[trigger] record_spairs(p, r)[i]).0),
    decreases r, 0int,
{
    match r {
        RecordV::Leaf(t, _) => {
            assert(record_spairs(p, r) =~= seq![(p, t)]);
            assert(path_ok(p));
            assert forall|i: int| 0 <= i < record_spairs(p, r).len() implies path_ok(
                (#[trigger] record_spairs(p, r)[i]).0,
            ) by {
                assert(record_spairs(p, r)[i] == (p, t));
            }
        },
        RecordV::Record(es) => {
            lemma_entries_spairs_paths(es, p, 0);
            assert forall|i: int| 0 <= i < record_spairs(p, r).len() implies path_ok(
                (#[trigger] record_spairs(p, r)[i]).0,
            ) by {
                assert(record_spairs(p, r)[i] == entries_spairs(es, p, 0)[i]);
            }
        },
    }
}

proof fn lemma_entries_spairs_paths(es: Seq<(Seq<char>, RecordV)>, p: Seq<Seq<char>>, i: int)
    requires
        forall|j: int| 0 <= j < es.len() ==> seg_ok((#[trigger] es[j]).0),
        forall|j: int| 0 <= j < es.len() ==> record_wf((#[trigger] es[j]).1),
        forall|j: int, l: int|
            0 <= j < p.len() && 0 <= l < (#[trigger] p[j]).len() ==> #[trigger] p[j][l] != '.',
        0 <= i <= es.len(),
    ensures
        forall|n: int|
            0 <= n < entries_spairs(es, p, i).len() ==> path_ok(
                (#[trigger] entries_spairs(es, p, i)[n]).0,
            ),
    decreases es, es.len() - i,
{
    if i < es.len() {
        let p1 = p.push(es[i].0);
        assert forall|j: int, l: int|
            0 <= j < p1.len() && 0 <= l < (#[trigger] p1[j]).len() implies #[trigger] p1[j][l]
            != '.' by {
            if j < p.len() {
                assert(p1[j] == p[j]);
            } else {
                assert(p1[j] == es[i].0);
            }
        }
        lemma_record_spairs_paths(p1, es[i].1);
        lemma_entries_spairs_paths(es, p, i + 1);
        let head = record_spairs(p1, es[i].1);
        let tail = entries_spairs(es, p, i + 1);
        assert forall|n: int| 0 <= n < entries_spairs(es, p, i).len() implies path_ok(
            (#[trigger] entries_spairs(es, p, i)[n]).0,
        ) by {
            if n < head.len() {
                assert(entries_spairs(es, p, i)[n] == head[n]);
            } else {
                assert(entries_spairs(es, p, i)[n] == tail[n - head.len()]);
            }
        }
    }
}

/// The grand assembly law: the assembler inverts the writer's
/// flattening for nested records.  A well-formed record's pairs, their
/// paths joined into the dotted keys that stand on the wire, assemble
/// back into exactly the record's decode tree.
pub proof fn lemma_record_pairs_decode(es: Seq<(Seq<char>, RecordV)>)
    requires
        record_wf(RecordV::Record(es)),
    ensures
        assemble(joined_pairs(record_spairs(Seq::empty(), RecordV::Record(es))))
            == TreeV::Mapping(record_map(es)),
{
    let r = RecordV::Record(es);
    let p0 = Seq::<Seq<char>>::empty();
    let root = TreeV::Mapping(Map::<Seq<char>, TreeV>::empty());
    lemma_record_assemble(root, p0, r);
    lemma_record_spairs_paths(p0, r);
    lemma_assemble_vs_sp(record_spairs(p0, r));
    assert(graft(root, p0, record_tree(r)) == record_tree(r));
}

/// The encode tree the writer builds for a record: quoted leaves carry
/// their quoted form, bare leaves their text.
pub open spec fn record_render(r: RecordV) -> ValueV
    decreases r,
{
    match r {
        RecordV::Leaf(t, quoted) => ValueV::Single(
            if quoted {
                quote(t)
            } else {
                t
            },
        ),
        RecordV::Record(es) => ValueV::Mapping(render_entries(es)),
    }
}

pub open spec fn render_entries(es: Seq<(Seq<char>, RecordV)>) -> Seq<(Seq<char>, ValueV)>
    decreases es,
{
    if es.len() == 0 {
        Seq::empty()
    } else {
        render_entries(es.drop_last()).push((es.last().0, record_render(es.last().1)))
    }
}

proof fn lemma_render_entries_index(es: Seq<(Seq<char>, RecordV)>)
    ensures
        render_entries(es).len() == es.len(),
        forall|i: int|
            0 <= i < es.len() ==> #[trigger] render_entries(es)[i] == (
                es[i].0,
                record_render(es[i].1),
            ),
    decreases es.len(),
{
    if es.len() > 0 {
        lemma_render_entries_index(es.drop_last());
        assert forall|i: int|
            0 <= i < es.len() implies #[trigger] render_entries(es)[i] == (
            es[i].0,
            record_render(es[i].1),
        ) by {
            if i < es.len() - 1 {
                assert(es.drop_last()[i] == es[i]);
            } else {
                assert(es.last() == es[i]);
            }
        }
    }
}

/// The rendered pair lines of a record, string-keyed: each leaf under
/// the dotted join of its segmented path.
pub open spec fn record_striples(p: Seq<Seq<char>>, r: RecordV) -> Seq<
    (Seq<char>, Seq<char>, bool),
>
    decreases r, 0int,
{
    match r {
        RecordV::Leaf(t, quoted) => seq![(join_segs(p), t, quoted)],
        RecordV::Record(es) => entries_striples(es, p, 0),
    }
}

pub open spec fn entries_striples(es: Seq<(Seq<char>, RecordV)>, p: Seq<Seq<char>>, i: int) -> Seq<
    (Seq<char>, Seq<char>, bool),
>
    decreases es, es.len() - i,
{
    if i < 0 || i >= es.len() {
        Seq::empty()
    } else {
        record_striples(p.push(es[i].0), es[i].1) + entries_striples(es, p, i + 1)
    }
}

/// Joining one more segment appends it after a dot.
proof fn lemma_join_snoc(p: Seq<Seq<char>>, k: Seq<char>)
    ensures
        join_segs(p.push(k)) == if p.len() == 0 {
            k
        } else {
            join_segs(p) + seq!['.'] + k
        },
    decreases p.len(),
{
    let q = p.push(k);
    if p.len() == 0 {
        assert(q[0] == k);
    } else if p.len() == 1 {
        assert(q[0] == p[0]);
        assert(q.drop_first() =~= seq![k]);
        assert(join_segs(seq![k]) == k);
    } else {
        assert(q[0] == p[0]);
        assert(q.drop_first() =~= p.drop_first().push(k));
        lemma_join_snoc(p.drop_first(), k);
        assert(join_segs(q) =~= join_segs(p) + seq!['.'] + k);
    }
}

/// The joined key of a wire-safe segmented path is itself wire-safe.
proof fn lemma_join_wire_key(p: Seq<Seq<char>>)
    requires
        p.len() > 0,
        forall|j: int| 0 <= j < p.len() ==> seg_ok(#[trigger] p[j]),
    ensures
        wire_key(join_segs(p)),
    decreases p.len(),
{
    if p.len() == 1 {
        assert(seg_ok(p[0]));
    } else {
        let rest = p.drop_first();
        assert forall|j: int| 0 <= j < rest.len() implies seg_ok(#[trigger] rest[j]) by {
            assert(rest[j] == p[j + 1]);
        }
        lemma_join_wire_key(rest);
        let w = join_segs(p);
        assert(seg_ok(p[0]));
        assert forall|i: int| 0 <= i < w.len() implies w[i] != '&' && w[i] != '=' && w[i]
            != '"' by {
            if i < p[0].len() {
                assert(w[i] == p[0][i]);
            } else if i == p[0].len() {
                assert(w[i] == '.');
            } else {
                assert(w[i] == join_segs(rest)[i - p[0].len() - 1]);
            }
        }
    }
}

/// Flattening a record's encode tree writes exactly the document of its
/// pair lines.
proof fn lemma_flat_is_doc(p: Seq<Seq<char>>, r: RecordV)
    requires
        forall|j: int| 0 <= j < p.len() ==> seg_ok(#[trigger] p[j]),
        record_wf(r),
        p.len() > 0 || r is Record,
    ensures
        flat(record_render(r), join_segs(p)) == doc_text(record_striples(p, r)),
    decreases r, 0int,
{
    match r {
        RecordV::Leaf(t, quoted) => {
            let k = join_segs(p);
            let ps = record_striples(p, r);
            assert(ps =~= seq![(k, t, quoted)]);
            assert(ps[0] == (k, t, quoted));
            assert(ps.drop_first() =~= Seq::<(Seq<char>, Seq<char>, bool)>::empty());
            reveal_strlit("=");
            reveal_strlit("&");
            assert("="@ =~= seq!['=']);
            assert("&"@ =~= seq!['&']);
            let rendered = if quoted {
                quote(t)
            } else {
                t
            };
            assert(leaf_text((k, t, quoted)) == rendered);
            assert(ps.len() == 1);
            assert(flat(record_render(r), k) == k + "="@ + rendered + "&"@);
            assert(doc_text(ps) == ps[0].0 + seq!['='] + leaf_text(ps[0]) + seq!['&'] + doc_text(
                ps.drop_first(),
            ));
            assert(doc_text(ps.drop_first()) =~= Seq::<char>::empty());
            assert(doc_text(ps) == k + seq!['='] + rendered + seq!['&'] + doc_text(
                ps.drop_first(),
            ));
            assert(k + "="@ + rendered + "&"@ =~= k + seq!['='] + rendered + seq!['&']
                + Seq::<char>::empty());
            assert(flat(record_render(r), k) =~= doc_text(ps));
        },
        RecordV::Record(es) => {
            lemma_render_entries_index(es);
            lemma_flat_entries_is_doc(es, p, 0);
            assert(record_striples(p, r) == entries_striples(es, p, 0));
        },
    }
}

proof fn lemma_flat_entries_is_doc(es: Seq<(Seq<char>, RecordV)>, p: Seq<Seq<char>>, i: int)
    requires
        forall|j: int| 0 <= j < p.len() ==> seg_ok(#[trigger] p[j]),
        forall|j: int| 0 <= j < es.len() ==> seg_ok((#[trigger] es[j]).0),
        forall|j: int| 0 <= j < es.len() ==> record_wf((#[trigger] es[j]).1),
        0 <= i <= es.len(),
    ensures
        flat_entries(render_entries(es), prefix_of(join_segs(p)), i) == doc_text(
            entries_striples(es, p, i),
        ),
    decreases es, es.len() - i,
{
    lemma_render_entries_index(es);
    let re = render_entries(es);
    let pre = prefix_of(join_segs(p));
    if i == es.len() {
        assert(flat_entries(re, pre, i) =~= Seq::<char>::empty());
    } else {
        let k = es[i].0;
        let p1 = p.push(k);
        // The child's full key is the parent prefix followed by its
        // segment.
        lemma_join_snoc(p, k);
        if p.len() == 0 {
            assert(join_segs(p) =~= Seq::<char>::empty());
            assert(pre + k =~= k);
            assert(p1 =~= seq![k]);
            assert(join_segs(p1) == k);
        } else {
            lemma_join_wire_key(p);
            reveal_strlit(".");
            assert("."@ =~= seq!['.']);
            assert(pre + k =~= join_segs(p) + seq!['.'] + k);
        }
        assert(pre + k == join_segs(p1));
        assert forall|j: int| 0 <= j < p1.len() implies seg_ok(#[trigger] p1[j]) by {
            if j < p.len() {
                assert(p1[j] == p[j]);
            } else {
                assert(p1[j] == k);
            }
        }
        lemma_flat_is_doc(p1, es[i].1);
        lemma_flat_entries_is_doc(es, p, i + 1);
        lemma_doc_text_concat(record_striples(p1, es[i].1), entries_striples(es, p, i + 1));
        assert(re[i] == (k, record_render(es[i].1)));
        assert(flat_entries(re, pre, i) == flat(record_render(es[i].1), pre + k) + flat_entries(
            re,
            pre,
            i + 1,
        ));
    }
}

/// The pairs of the rendered lines are the record's pairs under their
/// dotted keys.
proof fn lemma_striples_pairs(p: Seq<Seq<char>>, r: RecordV)
    ensures
        doc_pairs(record_striples(p, r)) == joined_pairs(record_spairs(p, r)),
    decreases r, 0int,
{
    match r {
        RecordV::Leaf(t, quoted) => {
            assert(record_striples(p, r) =~= seq![(join_segs(p), t, quoted)]);
            assert(record_spairs(p, r) =~= seq![(p, t)]);
            assert(doc_pairs(record_striples(p, r)) =~= joined_pairs(record_spairs(p, r)));
        },
        RecordV::Record(es) => {
            lemma_entries_striples_pairs(es, p, 0);
        },
    }
}

proof fn lemma_entries_striples_pairs(es: Seq<(Seq<char>, RecordV)>, p: Seq<Seq<char>>, i: int)
    requires
        0 <= i <= es.len(),
    ensures
        doc_pairs(entries_striples(es, p, i)) == joined_pairs(entries_spairs(es, p, i)),
    decreases es, es.len() - i,
{
    if i == es.len() {
        assert(doc_pairs(entries_striples(es, p, i)) =~= joined_pairs(entries_spairs(es, p, i)));
    } else {
        let p1 = p.push(es[i].0);
        lemma_striples_pairs(p1, es[i].1);
        lemma_entries_striples_pairs(es, p, i + 1);
        assert(doc_pairs(record_striples(p1, es[i].1) + entries_striples(es, p, i + 1))
            =~= doc_pairs(record_striples(p1, es[i].1)) + doc_pairs(entries_striples(es, p, i + 1)));
        assert(joined_pairs(record_spairs(p1, es[i].1) + entries_spairs(es, p, i + 1))
            =~= joined_pairs(record_spairs(p1, es[i].1)) + joined_pairs(entries_spairs(es, p, i + 1)));
    }
}

/// Every rendered line of a well-formed record is a wire-safe pair.
proof fn lemma_striples_wire(p: Seq<Seq<char>>, r: RecordV)
    requires
        record_wf(r),
        record_leaves_ok(r),
        forall|j: int| 0 <= j < p.len() ==> seg_ok(#[trigger] p[j]),
        p.len() > 0 || r is Record,
    ensures
        forall|i: int|
            0 <= i < record_striples(p, r).len() ==> wire_pair(#[trigger] record_striples(p, r)[i]),
    decreases r, 0int,
{
    match r {
        RecordV::Leaf(t, quoted) => {
            assert(record_striples(p, r) =~= seq![(join_segs(p), t, quoted)]);
            lemma_join_wire_key(p);
            assert(wire_pair((join_segs(p), t, quoted)));
            assert forall|i: int| 0 <= i < record_striples(p, r).len() implies wire_pair(
                #[trigger] record_striples(p, r)[i],
            ) by {
                assert(record_striples(p, r)[i] == (join_segs(p), t, quoted));
            }
        },
        RecordV::Record(es) => {
            lemma_entries_striples_wire(es, p, 0);
            assert forall|i: int| 0 <= i < record_striples(p, r).len() implies wire_pair(
                #[trigger] record_striples(p, r)[i],
            ) by {
                assert(record_striples(p, r)[i] == entries_striples(es, p, 0)[i]);
            }
        },
    }
}

proof fn lemma_entries_striples_wire(es: Seq<(Seq<char>, RecordV)>, p: Seq<Seq<char>>, i: int)
    requires
        forall|j: int| 0 <= j < es.len() ==> seg_ok((#[trigger] es[j]).0),
        forall|j: int| 0 <= j < es.len() ==> record_wf((#[trigger] es[j]).1),
        forall|j: int| 0 <= j < es.len() ==> record_leaves_ok((#[trigger] es[j]).1),
        forall|j: int| 0 <= j < p.len() ==> seg_ok(#[trigger] p[j]),
        0 <= i <= es.len(),
    ensures
        forall|n: int|
            0 <= n < entries_striples(es, p, i).len() ==> wire_pair(
                #[trigger] entries_striples(es, p, i)[n],
            ),
    decreases es, es.len() - i,
{
    if i < es.len() {
        let p1 = p.push(es[i].0);
        assert forall|j: int| 0 <= j < p1.len() implies seg_ok(#[trigger] p1[j]) by {
            if j < p.len() {
                assert(p1[j] == p[j]);
            } else {
                assert(p1[j] == es[i].0);
            }
        }
        lemma_striples_wire(p1, es[i].1);
        lemma_entries_striples_wire(es, p, i + 1);
        let head = record_striples(p1, es[i].1);
        let tail = entries_striples(es, p, i + 1);
        assert forall|n: int| 0 <= n < entries_striples(es, p, i).len() implies wire_pair(
            #[trigger] entries_striples(es, p, i)[n],
        ) by {
            if n < head.len() {
                assert(entries_striples(es, p, i)[n] == head[n]);
            } else {
                assert(entries_striples(es, p, i)[n] == tail[n - head.len()]);
            }
        }
    }
}

/// The round trip of a nested record, front to back: the text that the
/// writer's flattening emits for a well-formed record tokenizes and
/// parses back to exactly the record's pairs, and assembling those pairs
/// rebuilds exactly the record's decode tree.  (The one trailing
/// separator that `strip_sep` removes afterwards is also accepted by the
/// grammar, which ends on a pair or on a separator alike.)
pub proof fn lemma_record_round_trip(es: Seq<(Seq<char>, RecordV)>)
    requires
        record_wf(RecordV::Record(es)),
        record_leaves_ok(RecordV::Record(es)),
    ensures
        ({
            let r = RecordV::Record(es);
            let text = flat(record_render(r), Seq::empty());
            let qs = joined_pairs(record_spairs(Seq::empty(), r));
            &&& parse_toks(lex_root(text)) == Ok::<_, int>(qs)
            &&& assemble(qs) == TreeV::Mapping(record_map(es))
        }),
{
    let r = RecordV::Record(es);
    let p0 = Seq::<Seq<char>>::empty();
    assert(join_segs(p0) =~= Seq::<char>::empty());
    lemma_flat_is_doc(p0, r);
    lemma_striples_wire(p0, r);
    lemma_document_round_trip(record_striples(p0, r));
    lemma_striples_pairs(p0, r);
    lemma_record_pairs_decode(es);
}

/// A document's text splits over its pair lists.
proof fn lemma_doc_text_concat(a: Seq<(Seq<char>, Seq<char>, bool)>, b: Seq<(Seq<char>, Seq<char>, bool)>)
    ensures
        doc_text(a + b) == doc_text(a) + doc_text(b),
    decreases a.len(),
{
    if a.len() == 0 {
        assert(a + b =~= b);
        assert(doc_text(a) + doc_text(b) =~= doc_text(b));
    } else {
        assert((a + b)[0] == a[0]);
        assert((a + b).drop_first() =~= a.drop_first() + b);
        lemma_doc_text_concat(a.drop_first(), b);
        assert(doc_text(a + b) =~= doc_text(a) + doc_text(b));
    }
}

} // verus!
