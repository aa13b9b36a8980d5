//! Decimal text for the scalar leaves of the wire format.
//!
//! Encoding writes integers with the standard decimal formatter; decoding
//! parses them with the standard numeric grammar (an optional sign followed
//! by ASCII digits, the whole text within range).  Both directions are
//! implemented here against one spec-level description of that grammar.

use vstd::prelude::*;

verus! {

/// The numeric value of an ASCII digit; 10 for any other character.
pub open spec fn digit_val(c: char) -> int {
    if c == '0' {
        0
    } else if c == '1' {
        1
    } else if c == '2' {
        2
    } else if c == '3' {
        3
    } else if c == '4' {
        4
    } else if c == '5' {
        5
    } else if c == '6' {
        6
    } else if c == '7' {
        7
    } else if c == '8' {
        8
    } else if c == '9' {
        9
    } else {
        10
    }
}

/// True when `c` is an ASCII decimal digit.
pub open spec fn is_digit(c: char) -> bool {
    digit_val(c) < 10
}

/// The digit character of `d`, for `0 <= d < 10`.
pub open spec fn digit_char(d: int) -> char {
    if d == 0 {
        '0'
    } else if d == 1 {
        '1'
    } else if d == 2 {
        '2'
    } else if d == 3 {
        '3'
    } else if d == 4 {
        '4'
    } else if d == 5 {
        '5'
    } else if d == 6 {
        '6'
    } else if d == 7 {
        '7'
    } else if d == 8 {
        '8'
    } else {
        '9'
    }
}

/// The value of a digit string, most significant digit first.
pub open spec fn digits_val(s: Seq<char>) -> int
    decreases s.len(),
{
    if s.len() == 0 {
        0
    } else {
        digits_val(s.drop_last()) * 10 + digit_val(s.last())
    }
}

pub open spec fn all_digits(s: Seq<char>) -> bool {
    forall|i: int| 0 <= i < s.len() ==> is_digit(#[trigger] s[i])
}

/// The canonical decimal text of a non-negative integer.
pub open spec fn u64_text(n: int) -> Seq<char>
    decreases n,
{
    if n < 10 {
        seq![digit_char(n)]
    } else {
        u64_text(n / 10).push(digit_char(n % 10))
    }
}

/// The canonical decimal text of a signed integer.
pub open spec fn i64_text(n: int) -> Seq<char> {
    if n < 0 {
        seq!['-'] + u64_text(-n)
    } else {
        u64_text(n)
    }
}

/// The digits of a numeric text after an optional leading `+`.
pub open spec fn unsigned_body(s: Seq<char>) -> Seq<char> {
    if s.len() > 0 && s[0] == '+' {
        s.drop_first()
    } else {
        s
    }
}

/// The standard grammar of an unsigned decimal text.
pub open spec fn is_unsigned_text(s: Seq<char>) -> bool {
    unsigned_body(s).len() > 0 && all_digits(unsigned_body(s))
}

pub open spec fn unsigned_text_val(s: Seq<char>) -> int {
    digits_val(unsigned_body(s))
}

/// The digits of a numeric text after an optional leading `+` or `-`.
pub open spec fn signed_body(s: Seq<char>) -> Seq<char> {
    if s.len() > 0 && (s[0] == '+' || s[0] == '-') {
        s.drop_first()
    } else {
        s
    }
}

/// The standard grammar of a signed decimal text.
pub open spec fn is_signed_text(s: Seq<char>) -> bool {
    signed_body(s).len() > 0 && all_digits(signed_body(s))
}

pub open spec fn signed_text_val(s: Seq<char>) -> int {
    if s.len() > 0 && s[0] == '-' {
        -digits_val(signed_body(s))
    } else {
        digits_val(signed_body(s))
    }
}

pub proof fn lemma_digits_val_nonneg(s: Seq<char>)
    requires
        all_digits(s),
    ensures
        digits_val(s) >= 0,
    decreases s.len(),
{
    if s.len() > 0 {
        assert(all_digits(s.drop_last()));
        lemma_digits_val_nonneg(s.drop_last());
    }
}

/// A digit string is worth at least any of its prefixes.
pub proof fn lemma_digits_val_prefix(s: Seq<char>, i: int)
    requires
        all_digits(s),
        0 <= i <= s.len(),
    ensures
        digits_val(s.take(i)) <= digits_val(s),
    decreases s.len(),
{
    if i == s.len() {
        assert(s.take(i) =~= s);
    } else {
        assert(s.drop_last().take(i) =~= s.take(i));
        assert(all_digits(s.drop_last()));
        lemma_digits_val_prefix(s.drop_last(), i);
        lemma_digits_val_nonneg(s.drop_last());
    }
}

/// The decimal text of a non-negative integer is a digit string worth
/// exactly that integer.
pub proof fn lemma_u64_text_digits(n: int)
    requires
        0 <= n,
    ensures
        all_digits(u64_text(n)),
        u64_text(n).len() > 0,
        digits_val(u64_text(n)) == n,
    decreases n,
{
    if n < 10 {
        let s = u64_text(n);
        assert(s.drop_last() =~= Seq::<char>::empty());
        assert(s.last() == digit_char(n));
        assert(digit_val(digit_char(n)) == n);
        assert(digits_val(s) == digits_val(s.drop_last()) * 10 + digit_val(s.last()));
    } else {
        lemma_u64_text_digits(n / 10);
        let s = u64_text(n);
        assert(s.drop_last() =~= u64_text(n / 10));
        assert forall|i: int| 0 <= i < s.len() implies is_digit(#[trigger] s[i]) by {
            if i < s.len() - 1 {
                assert(s[i] == u64_text(n / 10)[i]);
            }
        }
    }
}

/// Formatting an unsigned integer and parsing the text back returns
/// the same integer.
pub proof fn lemma_u64_round_trip(n: u64)
    ensures
        is_unsigned_text(u64_text(n as int)),
        unsigned_text_val(u64_text(n as int)) == n as int,
{
    lemma_u64_text_digits(n as int);
    let s = u64_text(n as int);
    assert(is_digit(s[0]));
    assert(unsigned_body(s) =~= s);
}

/// Formatting a signed integer and parsing the text back returns
/// the same integer.
pub proof fn lemma_i64_round_trip(n: i64)
    ensures
        is_signed_text(i64_text(n as int)),
        signed_text_val(i64_text(n as int)) == n as int,
{
    if n < 0 {
        lemma_u64_text_digits(-(n as int));
        let s = i64_text(n as int);
        assert(signed_body(s) =~= u64_text(-(n as int)));
    } else {
        lemma_u64_text_digits(n as int);
        let s = i64_text(n as int);
        assert(is_digit(s[0]));
        assert(signed_body(s) =~= s);
    }
}

/// The digit character of `d`.
fn digit_str(d: u64) -> (r: &'static str)
    requires
        d < 10,
    ensures
        r@ == seq![digit_char(d as int)],
{
    let r: &'static str = match d {
        0 => "0",
        1 => "1",
        2 => "2",
        3 => "3",
        4 => "4",
        5 => "5",
        6 => "6",
        7 => "7",
        8 => "8",
        _ => "9",
    };
    proof {
        reveal_strlit("0");
        reveal_strlit("1");
        reveal_strlit("2");
        reveal_strlit("3");
        reveal_strlit("4");
        reveal_strlit("5");
        reveal_strlit("6");
        reveal_strlit("7");
        reveal_strlit("8");
        reveal_strlit("9");
        assert(r@ =~= seq![digit_char(d as int)]);
    }
    r
}

/// Formats `n` in decimal, as the standard integer formatter does.
pub fn format_u64(n: u64) -> (r: String)
    ensures
        r@ == u64_text(n as int),
    decreases n,
{
    if n < 10 {
        digit_str(n).to_owned()
    } else {
        let mut s = format_u64(n / 10);
        s.append(digit_str(n % 10));
        proof {
            assert(s@ =~= u64_text(n as int));
        }
        s
    }
}

/// Formats `n` in decimal, as the standard integer formatter does.
pub fn format_i64(n: i64) -> (r: String)
    ensures
        r@ == i64_text(n as int),
{
    if n >= 0 {
        format_u64(n as u64)
    } else {
        let mag: u64 = (-(n as i128)) as u64;
        let mut s = "-".to_owned();
        let digits = format_u64(mag);
        s.append(digits.as_str());
        proof {
            reveal_strlit("-");
            assert(s@ =~= i64_text(n as int));
        }
        s
    }
}

/// The value of an ASCII digit.
fn digit_of(c: char) -> (r: Option<u64>)
    ensures
        match r {
            Some(d) => is_digit(c) && d == digit_val(c),
            None => !is_digit(c),
        },
{
    match c {
        '0' => Some(0),
        '1' => Some(1),
        '2' => Some(2),
        '3' => Some(3),
        '4' => Some(4),
        '5' => Some(5),
        '6' => Some(6),
        '7' => Some(7),
        '8' => Some(8),
        '9' => Some(9),
        _ => None,
    }
}

/// Parses the digit run `s[start..]` as a `u64`.
fn parse_digits(s: &str, start: usize, len: usize) -> (r: Option<u64>)
    requires
        start <= len,
        len == s@.len(),
    ensures
        match r {
            Some(v) => {
                &&& s@.skip(start as int).len() > 0
                &&& all_digits(s@.skip(start as int))
                &&& v == digits_val(s@.skip(start as int))
            },
            None => {
                ||| s@.skip(start as int).len() == 0
                ||| !all_digits(s@.skip(start as int))
                ||| digits_val(s@.skip(start as int)) > u64::MAX
            },
        },
{
    if start == len {
        return None;
    }
    let ghost body = s@.skip(start as int);
    let mut acc: u64 = 0;
    let mut i: usize = start;
    while i < len
        invariant
            start <= i <= len,
            len == s@.len(),
            body == s@.skip(start as int),
            all_digits(body.take((i - start) as int)),
            acc == digits_val(body.take((i - start) as int)),
        decreases len - i,
    {
        let c = s.get_char(i);
        proof {
            assert(body[(i - start) as int] == c);
        }
        let d = match digit_of(c) {
            Some(d) => d,
            None => {
                proof {
                    assert(!is_digit(body[(i - start) as int]));
                }
                return None;
            },
        };
        if acc > (u64::MAX - d) / 10 {
            proof {
                let k = (i - start) as int;
                assert(acc * 10 + d > u64::MAX) by (nonlinear_arith)
                    requires
                        acc > (u64::MAX - d) / 10,
                        d < 10,
                        acc <= u64::MAX,
                ;
                assert(body.take(k + 1).drop_last() =~= body.take(k));
                assert(digits_val(body.take(k + 1)) == acc * 10 + d);
                if all_digits(body) {
                    lemma_digits_val_prefix(body, k + 1);
                }
            }
            return None;
        }
        proof {
            let k = (i - start) as int;
            assert(body.take(k + 1).drop_last() =~= body.take(k));
        }
        acc = acc * 10 + d;
        i = i + 1;
    }
    proof {
        assert(body.take((len - start) as int) =~= body);
    }
    Some(acc)
}

/// Parses `s` with the standard `u64` grammar.
pub fn parse_u64(s: &str) -> (r: Option<u64>)
    ensures
        match r {
            Some(v) => is_unsigned_text(s@) && v == unsigned_text_val(s@),
            None => !is_unsigned_text(s@) || unsigned_text_val(s@) > u64::MAX,
        },
{
    let len = s.unicode_len();
    let start: usize = if len > 0 && s.get_char(0) == '+' {
        1
    } else {
        0
    };
    proof {
        assert(s@.skip(start as int) =~= unsigned_body(s@));
    }
    parse_digits(s, start, len)
}

/// Parses `s` with the standard `i64` grammar.
pub fn parse_i64(s: &str) -> (r: Option<i64>)
    ensures
        match r {
            Some(v) => is_signed_text(s@) && v == signed_text_val(s@),
            None => !is_signed_text(s@) || signed_text_val(s@) < i64::MIN || signed_text_val(
                s@,
            ) > i64::MAX,
        },
{
    let len = s.unicode_len();
    let neg = len > 0 && s.get_char(0) == '-';
    let start: usize = if len > 0 && (s.get_char(0) == '+' || s.get_char(0) == '-') {
        1
    } else {
        0
    };
    proof {
        assert(s@.skip(start as int) =~= signed_body(s@));
    }
    match parse_digits(s, start, len) {
        None => None,
        Some(mag) => {
            if neg {
                if mag < 9223372036854775808u64 {
                    Some(-(mag as i64))
                } else if mag == 9223372036854775808u64 {
                    Some(i64::MIN)
                } else {
                    None
                }
            } else {
                if mag <= 9223372036854775807u64 {
                    Some(mag as i64)
                } else {
                    None
                }
            }
        },
    }
}

/// Parses `s` with the standard `u8` grammar.
pub fn parse_u8(s: &str) -> (r: Option<u8>)
    ensures
        match r {
            Some(v) => is_unsigned_text(s@) && v == unsigned_text_val(s@),
            None => !is_unsigned_text(s@) || unsigned_text_val(s@) > u8::MAX,
        },
{
    match parse_u64(s) {
        Some(v) => if v <= u8::MAX as u64 {
            Some(v as u8)
        } else {
            None
        },
        None => None,
    }
}

/// Parses `s` with the standard `u16` grammar.
pub fn parse_u16(s: &str) -> (r: Option<u16>)
    ensures
        match r {
            Some(v) => is_unsigned_text(s@) && v == unsigned_text_val(s@),
            None => !is_unsigned_text(s@) || unsigned_text_val(s@) > u16::MAX,
        },
{
    match parse_u64(s) {
        Some(v) => if v <= u16::MAX as u64 {
            Some(v as u16)
        } else {
            None
        },
        None => None,
    }
}

/// Parses `s` with the standard `u32` grammar.
pub fn parse_u32(s: &str) -> (r: Option<u32>)
    ensures
        match r {
            Some(v) => is_unsigned_text(s@) && v == unsigned_text_val(s@),
            None => !is_unsigned_text(s@) || unsigned_text_val(s@) > u32::MAX,
        },
{
    match parse_u64(s) {
        Some(v) => if v <= u32::MAX as u64 {
            Some(v as u32)
        } else {
            None
        },
        None => None,
    }
}

/// Parses `s` with the standard `usize` grammar.
pub fn parse_usize(s: &str) -> (r: Option<usize>)
    ensures
        match r {
            Some(v) => is_unsigned_text(s@) && v == unsigned_text_val(s@),
            None => !is_unsigned_text(s@) || unsigned_text_val(s@) > usize::MAX,
        },
{
    match parse_u64(s) {
        Some(v) => if v <= usize::MAX as u64 {
            Some(v as usize)
        } else {
            None
        },
        None => None,
    }
}

/// Parses `s` with the standard `i8` grammar.
pub fn parse_i8(s: &str) -> (r: Option<i8>)
    ensures
        match r {
            Some(v) => is_signed_text(s@) && v == signed_text_val(s@),
            None => !is_signed_text(s@) || signed_text_val(s@) < i8::MIN || signed_text_val(
                s@,
            ) > i8::MAX,
        },
{
    match parse_i64(s) {
        Some(v) => if i8::MIN as i64 <= v && v <= i8::MAX as i64 {
            Some(v as i8)
        } else {
            None
        },
        None => None,
    }
}

/// Parses `s` with the standard `i16` grammar.
pub fn parse_i16(s: &str) -> (r: Option<i16>)
    ensures
        match r {
            Some(v) => is_signed_text(s@) && v == signed_text_val(s@),
            None => !is_signed_text(s@) || signed_text_val(s@) < i16::MIN || signed_text_val(
                s@,
            ) > i16::MAX,
        },
{
    match parse_i64(s) {
        Some(v) => if i16::MIN as i64 <= v && v <= i16::MAX as i64 {
            Some(v as i16)
        } else {
            None
        },
        None => None,
    }
}

/// Parses `s` with the standard `i32` grammar.
pub fn parse_i32(s: &str) -> (r: Option<i32>)
    ensures
        match r {
            Some(v) => is_signed_text(s@) && v == signed_text_val(s@),
            None => !is_signed_text(s@) || signed_text_val(s@) < i32::MIN || signed_text_val(
                s@,
            ) > i32::MAX,
        },
{
    match parse_i64(s) {
        Some(v) => if i32::MIN as i64 <= v && v <= i32::MAX as i64 {
            Some(v as i32)
        } else {
            None
        },
        None => None,
    }
}

} // verus!
