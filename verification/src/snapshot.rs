//! The snapshot format: a JSON object mapping each external user identifier
//! (as a decimal string) to an object with fields `namespace` (string) and
//! `alias` (object: namespace name to object: token to replacement).
//!
//! The serializer emits compact JSON; the parser accepts what the serializer
//! emits plus JSON's standard string escapes, but no insignificant
//! whitespace between tokens, so a pretty-printed snapshot is treated as
//! unusable.  A snapshot that does not parse, or that does not satisfy the
//! store's invariants, falls back to an empty store.  The round-trip law
//! says that parsing a serialized store recovers it exactly.

use vstd::prelude::*;

use crate::database::{User, UserModel};
use crate::error::Error;
use crate::table::{pdistinct, pmap};
use crate::users::Users;

verus! {

/// Relies on std's `String::push`: appends exactly the one character.
#[verifier::external_body]
pub(crate) fn push_char(s: &mut String, c: char)
    ensures
        final (s)@ == old(s)@.push(c),
{
    s.push(c);
}

/// Relies on std's `char::from_u32`: a value below 0x110000 that is not a
/// surrogate is a scalar value and converts to the character with that code.
#[verifier::external_body]
fn char_from_u32(u: u32) -> (c: char)
    requires
        u < 0xD800 || (0xE000 <= u && u < 0x110000),
    ensures
        c as u32 == u,
{
    match char::from_u32(u) {
        Some(c) => c,
        None => '\u{0}',
    }
}

/// The lowercase hexadecimal digit of a value below sixteen.
pub open spec fn hex_digit(n: int) -> char {
    if n == 0 {
        '0'
    } else if n == 1 {
        '1'
    } else if n == 2 {
        '2'
    } else if n == 3 {
        '3'
    } else if n == 4 {
        '4'
    } else if n == 5 {
        '5'
    } else if n == 6 {
        '6'
    } else if n == 7 {
        '7'
    } else if n == 8 {
        '8'
    } else if n == 9 {
        '9'
    } else if n == 10 {
        'a'
    } else if n == 11 {
        'b'
    } else if n == 12 {
        'c'
    } else if n == 13 {
        'd'
    } else if n == 14 {
        'e'
    } else {
        'f'
    }
}

/// The value of a lowercase hexadecimal digit, or `-1`.
pub open spec fn hex_val(c: char) -> int {
    if c == '0' {
        0
    } else if c == '1' {
        1
    } else if c == '2' {
        2
    } else if c == '3' {
        3
    } else if c == '4' {
        4
    } else if c == '5' {
        5
    } else if c == '6' {
        6
    } else if c == '7' {
        7
    } else if c == '8' {
        8
    } else if c == '9' {
        9
    } else if c == 'a' {
        10
    } else if c == 'b' {
        11
    } else if c == 'c' {
        12
    } else if c == 'd' {
        13
    } else if c == 'e' {
        14
    } else if c == 'f' {
        15
    } else {
        -1
    }
}

/// Decides [`hex_digit`].
fn hex_digit_char(n: u32) -> (c: char)
    requires
        n < 16,
    ensures
        c == hex_digit(n as int),
{
    match n {
        0 => '0',
        1 => '1',
        2 => '2',
        3 => '3',
        4 => '4',
        5 => '5',
        6 => '6',
        7 => '7',
        8 => '8',
        9 => '9',
        10 => 'a',
        11 => 'b',
        12 => 'c',
        13 => 'd',
        14 => 'e',
        _ => 'f',
    }
}

/// Decides [`hex_val`].
fn hex_val_char(c: char) -> (r: Option<u32>)
    ensures
        match r {
            Some(v) => v < 16 && v as int == hex_val(c),
            None => hex_val(c) < 0,
        },
{
    match c {
        '0' => Some(0),
        '1' => Some(1),
        '2' => Some(2),
        '3' => Some(3),
        '4' => Some(4),
        '5' => Some(5),
        '6' => Some(6),
        '7' => Some(7),
        '8' => Some(8),
        '9' => Some(9),
        'a' => Some(10),
        'b' => Some(11),
        'c' => Some(12),
        'd' => Some(13),
        'e' => Some(14),
        'f' => Some(15),
        _ => None,
    }
}

/// The escape of one character inside a JSON string: quote and backslash get
/// a backslash, control characters become `\u00XX`, everything else stands
/// for itself.
pub open spec fn esc_char(c: char) -> Seq<char> {
    if c == '"' {
        seq!['\\', '"']
    } else if c == '\\' {
        seq!['\\', '\\']
    } else if (c as u32) < 32 {
        seq!['\\', 'u', '0', '0', hex_digit((c as u32) as int / 16), hex_digit(
            (c as u32) as int % 16,
        )]
    } else {
        seq![c]
    }
}

/// The escaped body of a JSON string.
pub open spec fn esc_str(s: Seq<char>) -> Seq<char>
    decreases s.len(),
{
    if s.len() == 0 {
        Seq::empty()
    } else {
        esc_str(s.drop_last()) + esc_char(s.last())
    }
}

/// A serialized JSON string: the escaped body in quotes.
pub open spec fn ser_string(s: Seq<char>) -> Seq<char> {
    seq!['"'] + esc_str(s) + seq!['"']
}

/// The escaped body also splits off its first character's escape.
proof fn lemma_esc_str_first(s: Seq<char>)
    requires
        s.len() > 0,
    ensures
        esc_str(s) == esc_char(s[0]) + esc_str(s.skip(1)),
    decreases s.len(),
{
    if s.len() == 1 {
        assert(s.drop_last() =~= Seq::<char>::empty());
        assert(s.skip(1) =~= Seq::<char>::empty());
        assert(esc_char(s[0]) + Seq::<char>::empty() =~= esc_char(s[0]));
        assert(Seq::<char>::empty() + esc_char(s[0]) =~= esc_char(s[0]));
    } else {
        lemma_esc_str_first(s.drop_last());
        assert(s.drop_last()[0] == s[0]);
        assert(s.drop_last().skip(1) =~= s.skip(1).drop_last());
        assert(s.skip(1).last() == s.last());
        assert((esc_char(s[0]) + esc_str(s.skip(1).drop_last())) + esc_char(s.last()) =~= esc_char(
            s[0],
        ) + (esc_str(s.skip(1).drop_last()) + esc_char(s.last())));
    }
}

/// Appends the serialized form of the string `s` to `out`.
fn write_json_string(out: &mut String, s: &str)
    ensures
        final (out)@ == old(out)@ + ser_string(s@),
{
    push_char(out, '"');
    let n = s.unicode_len();
    let mut i: usize = 0;
    proof {
        assert(esc_str(s@.take(0)) =~= Seq::<char>::empty());
        assert(out@ =~= old(out)@ + seq!['"'] + esc_str(s@.take(0)));
    }
    while i < n
        invariant
            n == s@.len(),
            0 <= i <= n,
            out@ == old(out)@ + seq!['"'] + esc_str(s@.take(i as int)),
        decreases n - i,
    {
        let c = s.get_char(i);
        if c == '"' {
            push_char(out, '\\');
            push_char(out, '"');
        } else if c == '\\' {
            push_char(out, '\\');
            push_char(out, '\\');
        } else {
            let u = c as u32;
            if u < 32 {
                push_char(out, '\\');
                push_char(out, 'u');
                push_char(out, '0');
                push_char(out, '0');
                push_char(out, hex_digit_char(u / 16));
                push_char(out, hex_digit_char(u % 16));
            } else {
                push_char(out, c);
            }
        }
        i += 1;
        proof {
            let t = s@.take(i as int);
            assert(t.drop_last() =~= s@.take(i - 1));
            assert(t.last() == s@[i - 1]);
            assert(out@ =~= old(out)@ + seq!['"'] + (esc_str(s@.take(i - 1)) + esc_char(
                s@[i - 1],
            )));
        }
    }
    push_char(out, '"');
    proof {
        assert(s@.take(n as int) =~= s@);
        assert(old(out)@ + seq!['"'] + esc_str(s@) + seq!['"'] =~= old(out)@ + ser_string(s@));
    }
}

/// Whether `c` is JSON's insignificant whitespace.
pub open spec fn is_json_ws(c: char) -> bool {
    c == ' ' || c == '\t' || c == '\n' || c == '\r'
}

/// `s` without its leading insignificant whitespace.
pub open spec fn ws(s: Seq<char>) -> Seq<char>
    decreases s.len(),
{
    if s.len() > 0 && is_json_ws(s[0]) {
        ws(s.skip(1))
    } else {
        s
    }
}

/// Whitespace skipping lands at the first non-whitespace position.
proof fn lemma_ws_skip(s: Seq<char>, r: int)
    requires
        0 <= r <= s.len(),
        forall|x: int| 0 <= x < r ==> is_json_ws(#[trigger] s[x]),
        r < s.len() ==> !is_json_ws(s[r]),
    ensures
        ws(s) == s.skip(r),
    decreases r,
{
    if r == 0 {
        assert(s.skip(0) =~= s);
    } else {
        assert(is_json_ws(s[0]));
        lemma_ws_skip(s.skip(1), r - 1);
        assert(s.skip(1).skip(r - 1) =~= s.skip(r));
    }
}

/// Decides [`is_json_ws`].
fn json_ws_char(c: char) -> (r: bool)
    ensures
        r == is_json_ws(c),
{
    c == ' ' || c == '\t' || c == '\n' || c == '\r'
}

/// Advances `pos` over insignificant whitespace.
fn skip_ws(s: &str, pos: usize, n: usize) -> (r: usize)
    requires
        n == s@.len(),
        pos <= n,
    ensures
        pos <= r <= n,
        s@.skip(r as int) == ws(s@.skip(pos as int)),
        r < n ==> !is_json_ws(s@[r as int]),
    decreases n - pos,
{
    let mut i: usize = pos;
    while i < n && json_ws_char(s.get_char(i))
        invariant
            n == s@.len(),
            pos <= i <= n,
            forall|x: int| pos <= x < i ==> is_json_ws(#[trigger] s@[x]),
        decreases n - i,
    {
        i += 1;
    }
    proof {
        let t = s@.skip(pos as int);
        assert forall|x: int| 0 <= x < i - pos implies is_json_ws(#[trigger] t[x]) by {
            assert(s@[pos + x] == t[x]);
        }
        lemma_ws_skip(t, i - pos);
        assert(t.skip(i - pos) =~= s@.skip(i as int));
    }
    i
}

/// The character a short escape letter stands for, or the letter itself when
/// it is not one of the five short escapes.
pub open spec fn short_escape(c: char) -> char {
    if c == 'n' {
        '\n'
    } else if c == 't' {
        '\t'
    } else if c == 'r' {
        '\r'
    } else if c == 'b' {
        '\u{8}'
    } else if c == 'f' {
        '\u{C}'
    } else {
        c
    }
}

/// Whether `c` is a short escape letter.
pub open spec fn is_short_escape(c: char) -> bool {
    c == 'n' || c == 't' || c == 'r' || c == 'b' || c == 'f'
}

/// The code of a `\uXXXX` escape whose four hex digits start at position 2.
pub open spec fn u_escape_code(s: Seq<char>) -> int {
    hex_val(s[2]) * 4096 + hex_val(s[3]) * 256 + hex_val(s[4]) * 16 + hex_val(s[5])
}

/// Whether a `\uXXXX` code is a scalar value (not a surrogate).
pub open spec fn u_escape_scalar(u: int) -> bool {
    0 <= u < 0xD800 || 0xE000 <= u <= 0xFFFF
}

/// Parses the body of a JSON string (everything after the opening quote) up
/// to and over the closing quote, returning the decoded characters and the
/// remainder.  Accepts the escapes the serializer emits plus JSON's standard
/// string escapes (`\" \\ \/ \n \t \r \b \f` and non-surrogate `\uXXXX`); a
/// raw control character, a stray backslash or a missing quote is a failure.
pub open spec fn parse_str_body(s: Seq<char>) -> Option<(Seq<char>, Seq<char>)>
    decreases s.len(),
{
    if s.len() == 0 {
        None
    } else if s[0] == '"' {
        Some((Seq::empty(), s.skip(1)))
    } else if s[0] == '\\' {
        if s.len() >= 2 && (s[1] == '"' || s[1] == '\\' || s[1] == '/') {
            match parse_str_body(s.skip(2)) {
                Some((v, r)) => Some((seq![s[1]] + v, r)),
                None => None,
            }
        } else if s.len() >= 2 && is_short_escape(s[1]) {
            match parse_str_body(s.skip(2)) {
                Some((v, r)) => Some((seq![short_escape(s[1])] + v, r)),
                None => None,
            }
        } else if s.len() >= 6 && s[1] == 'u' && hex_val(s[2]) >= 0 && hex_val(s[3]) >= 0
            && hex_val(s[4]) >= 0 && hex_val(s[5]) >= 0 && u_escape_scalar(u_escape_code(s)) {
            match parse_str_body(s.skip(6)) {
                Some((v, r)) => Some((seq![(u_escape_code(s) as u32) as char] + v, r)),
                None => None,
            }
        } else {
            None
        }
    } else if (s[0] as u32) < 32 {
        None
    } else {
        match parse_str_body(s.skip(1)) {
            Some((v, r)) => Some((seq![s[0]] + v, r)),
            None => None,
        }
    }
}

/// Parses a JSON string, quote to quote, over leading whitespace.
pub open spec fn parse_string(s: Seq<char>) -> Option<(Seq<char>, Seq<char>)> {
    let s1 = ws(s);
    if s1.len() >= 1 && s1[0] == '"' {
        parse_str_body(s1.skip(1))
    } else {
        None
    }
}

/// Parsing a serialized string recovers it exactly, leaving the remainder.
pub proof fn lemma_parse_ser_string(x: Seq<char>, rest: Seq<char>)
    ensures
        parse_string(ser_string(x) + rest) == Some((x, rest)),
{
    let s = ser_string(x) + rest;
    assert(s[0] == '"');
    assert(s.skip(1) =~= esc_str(x) + (seq!['"'] + rest));
    lemma_parse_ser_body(x, seq!['"'] + rest, rest);
}

/// Parsing the escaped body followed by a closing quote recovers the body.
proof fn lemma_parse_ser_body(x: Seq<char>, close: Seq<char>, rest: Seq<char>)
    requires
        close == seq!['"'] + rest,
    ensures
        parse_str_body(esc_str(x) + close) == Some((x, rest)),
    decreases x.len(),
{
    if x.len() == 0 {
        assert(esc_str(x) + close =~= close);
        assert(close[0] == '"');
        assert(close.skip(1) =~= rest);
    } else {
        lemma_esc_str_first(x);
        lemma_parse_ser_body(x.skip(1), close, rest);
        let c = x[0];
        let tail = esc_str(x.skip(1)) + close;
        let s = esc_str(x) + close;
        assert(s =~= esc_char(c) + tail);
        if c == '"' {
            assert(s[0] == '\\' && s[1] == '"');
            assert(s.skip(2) =~= tail);
            assert(seq![s[1]] + x.skip(1) =~= x);
        } else if c == '\\' {
            assert(s[0] == '\\' && s[1] == '\\');
            assert(s.skip(2) =~= tail);
            assert(seq![s[1]] + x.skip(1) =~= x);
        } else if (c as u32) < 32 {
            let u = (c as u32) as int;
            assert(s[0] == '\\' && s[1] == 'u' && s[2] == '0' && s[3] == '0');
            assert(s[4] == hex_digit(u / 16) && s[5] == hex_digit(u % 16));
            lemma_hex_round(0);
            lemma_hex_round(u / 16);
            lemma_hex_round(u % 16);
            assert(!is_short_escape(s[1]));
            assert(u_escape_code(s) == u);
            assert(u_escape_scalar(u));
            assert(s.skip(6) =~= tail);
            vstd::utf8::char_u32_cast(c, c as u32);
            assert((u_escape_code(s) as u32) as char == c);
            assert(seq![c] + x.skip(1) =~= x);
        } else {
            assert(s[0] == c);
            assert(s[0] != '"' && s[0] != '\\' && !((s[0] as u32) < 32));
            assert(s.skip(1) =~= tail);
            assert(seq![c] + x.skip(1) =~= x);
        }
    }
}

/// A hexadecimal digit decodes back to its value.
proof fn lemma_hex_round(n: int)
    requires
        0 <= n < 16,
    ensures
        hex_val(hex_digit(n)) == n,
{
}

/// Parses a JSON string starting at `pos`, returning the decoded string and
/// the position after the closing quote.
fn parse_json_string(s: &str, pos: usize, n: usize) -> (r: Option<(String, usize)>)
    requires
        n == s@.len(),
        pos <= n,
    ensures
        match r {
            Some((v, p)) => pos < p <= n && parse_string(s@.skip(pos as int)) == Some(
                (v@, s@.skip(p as int)),
            ),
            None => parse_string(s@.skip(pos as int)) is None,
        },
{
    let q = skip_ws(s, pos, n);
    if q == n {
        return None;
    }
    proof {
        assert(s@.skip(q as int)[0] == s@[q as int]);
        assert(s@.skip(q as int).skip(1) =~= s@.skip(q + 1));
    }
    if s.get_char(q) != '"' {
        return None;
    }
    let mut out = String::new();
    let mut i: usize = q + 1;
    proof {
        let pb = parse_str_body(s@.skip(q + 1));
        if pb is Some {
            assert(out@ + pb->Some_0.0 =~= pb->Some_0.0);
        }
    }
    while i < n
        invariant
            n == s@.len(),
            pos <= q < n,
            q + 1 <= i <= n,
            parse_string(s@.skip(pos as int)) == parse_str_body(s@.skip(q + 1)),
            parse_str_body(s@.skip(q + 1)) == match parse_str_body(s@.skip(i as int)) {
                Some((v, r)) => Some::<(Seq<char>, Seq<char>)>((out@ + v, r)),
                None => None::<(Seq<char>, Seq<char>)>,
            },
        decreases n - i,
    {
        let ghost tail = s@.skip(i as int);
        let c = s.get_char(i);
        if c == '"' {
            proof {
                assert(tail.skip(1) =~= s@.skip(i + 1));
                assert(out@ + Seq::<char>::empty() =~= out@);
            }
            return Some((out, i + 1));
        } else if c == '\\' {
            if i + 1 < n {
                let e = s.get_char(i + 1);
                if e == '"' || e == '\\' || e == '/' {
                    push_char(&mut out, e);
                    proof {
                        assert(tail[1] == e);
                        assert(tail.skip(2) =~= s@.skip(i + 2));
                        assert forall|v: Seq<char>| true implies out@ + v =~= (out@.drop_last()
                            + (seq![e] + v)) by {
                            assert(out@.drop_last().push(e) =~= out@);
                        }
                    }
                    i += 2;
                } else if e == 'n' || e == 't' || e == 'r' || e == 'b' || e == 'f' {
                    let c2 = if e == 'n' {
                        '\n'
                    } else if e == 't' {
                        '\t'
                    } else if e == 'r' {
                        '\r'
                    } else if e == 'b' {
                        '\u{8}'
                    } else {
                        '\u{C}'
                    };
                    push_char(&mut out, c2);
                    proof {
                        assert(tail[1] == e);
                        assert(c2 == short_escape(e));
                        assert(tail.skip(2) =~= s@.skip(i + 2));
                        assert forall|v: Seq<char>| true implies out@ + v =~= (out@.drop_last()
                            + (seq![c2] + v)) by {
                            assert(out@.drop_last().push(c2) =~= out@);
                        }
                    }
                    i += 2;
                } else if e == 'u' && n - i >= 6 {
                    let h1 = hex_val_char(s.get_char(i + 2));
                    let h2 = hex_val_char(s.get_char(i + 3));
                    let h3 = hex_val_char(s.get_char(i + 4));
                    let h4 = hex_val_char(s.get_char(i + 5));
                    match (h1, h2, h3, h4) {
                        (Some(a), Some(b), Some(x), Some(y)) => {
                            let u = a * 4096 + b * 256 + x * 16 + y;
                            proof {
                                assert(tail[1] == 'u');
                                assert(tail[2] == s@[i + 2] && tail[3] == s@[i + 3]);
                                assert(tail[4] == s@[i + 4] && tail[5] == s@[i + 5]);
                                assert(u_escape_code(tail) == u as int);
                            }
                            if u < 0xD800 || 0xE000 <= u {
                                let c2 = char_from_u32(u);
                                push_char(&mut out, c2);
                                proof {
                                    assert(tail.skip(6) =~= s@.skip(i + 6));
                                    vstd::utf8::char_u32_cast(c2, u);
                                    assert(c2 == (u_escape_code(tail) as u32) as char);
                                    assert forall|v: Seq<char>| true implies out@ + v =~= (
                                    out@.drop_last() + (seq![c2] + v)) by {
                                        assert(out@.drop_last().push(c2) =~= out@);
                                    }
                                }
                                i += 6;
                            } else {
                                proof {
                                    assert(!u_escape_scalar(u_escape_code(tail)));
                                    assert(parse_str_body(tail) is None);
                                }
                                return None;
                            }
                        },
                        _ => {
                            proof {
                                assert(parse_str_body(tail) is None);
                            }
                            return None;
                        },
                    }
                } else {
                    proof {
                        assert(parse_str_body(tail) is None);
                    }
                    return None;
                }
            } else {
                proof {
                    assert(tail.len() == 1);
                    assert(parse_str_body(tail) is None);
                }
                return None;
            }
        } else {
            let u = c as u32;
            if u < 32 {
                proof {
                    assert(parse_str_body(tail) is None);
                }
                return None;
            }
            push_char(&mut out, c);
            proof {
                assert(tail[0] == c);
                assert(tail.skip(1) =~= s@.skip(i + 1));
                assert forall|v: Seq<char>| true implies out@ + v =~= (out@.drop_last()
                    + (seq![c] + v)) by {
                    assert(out@.drop_last().push(c) =~= out@);
                }
            }
            i += 1;
        }
    }
    proof {
        assert(s@.skip(n as int).len() == 0);
        assert(parse_str_body(s@.skip(n as int)) is None);
    }
    None
}

/// The decimal digits of a non-negative number, most significant first.
pub open spec fn dec_digits(n: int) -> Seq<char>
    decreases n,
{
    if n < 10 {
        seq![hex_digit(n)]
    } else {
        dec_digits(n / 10).push(hex_digit(n % 10))
    }
}

/// Whether `c` is a decimal digit.
pub open spec fn is_dec(c: char) -> bool {
    0 <= hex_val(c) < 10
}

/// The value of a digit run read onto the accumulator `acc`, with the
/// remainder after the run.
pub open spec fn parse_digits(s: Seq<char>, acc: int) -> (int, Seq<char>)
    decreases s.len(),
{
    if s.len() > 0 && is_dec(s[0]) {
        parse_digits(s.skip(1), acc * 10 + hex_val(s[0]))
    } else {
        (acc, s)
    }
}

/// Parses a decimal number that fits a `u64`; fails on no digit or overflow.
pub open spec fn parse_u64(s: Seq<char>) -> Option<(u64, Seq<char>)> {
    if s.len() > 0 && is_dec(s[0]) {
        let (v, r) = parse_digits(s, 0);
        if v <= u64::MAX {
            Some((v as u64, r))
        } else {
            None
        }
    } else {
        None
    }
}

/// A digit run never decreases the accumulator.
proof fn lemma_parse_digits_ge(s: Seq<char>, acc: int)
    requires
        acc >= 0,
    ensures
        parse_digits(s, acc).0 >= acc,
    decreases s.len(),
{
    if s.len() > 0 && is_dec(s[0]) {
        lemma_parse_digits_ge(s.skip(1), acc * 10 + hex_val(s[0]));
    }
}

/// Reading a digit run that is followed by a non-digit consumes exactly the
/// run.
proof fn lemma_parse_digits_append(d: Seq<char>, rest: Seq<char>, acc: int)
    requires
        forall|i: int| 0 <= i < d.len() ==> is_dec(#[trigger] d[i]),
        rest.len() > 0 ==> !is_dec(rest[0]),
    ensures
        parse_digits(d + rest, acc) == (digits_value(d, acc), rest),
    decreases d.len(),
{
    let s = d + rest;
    if d.len() == 0 {
        assert(s =~= rest);
    } else {
        assert(s[0] == d[0]);
        assert(s.skip(1) =~= d.skip(1) + rest);
        lemma_parse_digits_append(d.skip(1), rest, acc * 10 + hex_val(d[0]));
    }
}

/// The value of a digit sequence read onto the accumulator `acc`.
pub open spec fn digits_value(d: Seq<char>, acc: int) -> int
    decreases d.len(),
{
    if d.len() == 0 {
        acc
    } else {
        digits_value(d.skip(1), acc * 10 + hex_val(d[0]))
    }
}

/// Appending a digit multiplies the value by ten and adds the digit.
proof fn lemma_digits_value_push(d: Seq<char>, c: char, acc: int)
    ensures
        digits_value(d.push(c), acc) == digits_value(d, acc) * 10 + hex_val(c),
    decreases d.len(),
{
    if d.len() == 0 {
        assert(d.push(c)[0] == c);
        assert(d.push(c).skip(1) =~= Seq::<char>::empty());
        assert(digits_value(d.push(c), acc) == digits_value(
            Seq::<char>::empty(),
            acc * 10 + hex_val(c),
        ));
        assert(digits_value(Seq::<char>::empty(), acc * 10 + hex_val(c)) == acc * 10 + hex_val(c));
        assert(digits_value(d, acc) == acc);
    } else {
        assert(d.push(c)[0] == d[0]);
        assert(d.push(c).skip(1) =~= d.skip(1).push(c));
        lemma_digits_value_push(d.skip(1), c, acc * 10 + hex_val(d[0]));
        assert(digits_value(d.push(c), acc) == digits_value(
            d.skip(1).push(c),
            acc * 10 + hex_val(d[0]),
        ));
        assert(digits_value(d, acc) == digits_value(d.skip(1), acc * 10 + hex_val(d[0])));
    }
}

/// The decimal digits of `n` are digits and read back as `n`.
proof fn lemma_dec_digits_value(n: int)
    requires
        n >= 0,
    ensures
        forall|i: int| 0 <= i < dec_digits(n).len() ==> is_dec(#[trigger] dec_digits(n)[i]),
        digits_value(dec_digits(n), 0) == n,
        dec_digits(n).len() > 0,
    decreases n,
{
    if n < 10 {
        lemma_hex_round(n);
        let d = dec_digits(n);
        assert(d[0] == hex_digit(n));
        assert(d.skip(1) =~= Seq::<char>::empty());
        assert(digits_value(d, 0) == digits_value(Seq::<char>::empty(), 0 * 10 + hex_val(d[0])));
        assert(digits_value(Seq::<char>::empty(), hex_val(d[0])) == hex_val(d[0]));
    } else {
        lemma_dec_digits_value(n / 10);
        lemma_hex_round(n % 10);
        lemma_digits_value_push(dec_digits(n / 10), hex_digit(n % 10), 0);
        assert(n == (n / 10) * 10 + n % 10) by {
            vstd::arithmetic::div_mod::lemma_fundamental_div_mod(n, 10);
        }
        assert forall|i: int| 0 <= i < dec_digits(n).len() implies is_dec(
            #[trigger] dec_digits(n)[i],
        ) by {
            if i < dec_digits(n / 10).len() {
                assert(dec_digits(n)[i] == dec_digits(n / 10)[i]);
            } else {
                assert(dec_digits(n)[i] == hex_digit(n % 10));
            }
        }
    }
}

/// Parsing a serialized number recovers it, provided the remainder does not
/// begin with another digit.
pub proof fn lemma_parse_ser_u64(v: u64, rest: Seq<char>)
    requires
        rest.len() > 0 ==> !is_dec(rest[0]),
    ensures
        parse_u64(dec_digits(v as int) + rest) == Some((v, rest)),
{
    lemma_dec_digits_value(v as int);
    lemma_parse_digits_append(dec_digits(v as int), rest, 0);
    let s = dec_digits(v as int) + rest;
    assert(s[0] == dec_digits(v as int)[0]);
}

/// One-character string of a digit below sixteen.
fn digit_string(d: u32) -> (r: String)
    requires
        d < 16,
    ensures
        r@ == seq![hex_digit(d as int)],
{
    let mut r = String::new();
    push_char(&mut r, hex_digit_char(d));
    proof {
        assert(Seq::<char>::empty().push(hex_digit(d as int)) =~= seq![hex_digit(d as int)]);
    }
    r
}

/// The decimal rendering of `v`.
fn u64_digits(v: u64) -> (r: String)
    ensures
        r@ == dec_digits(v as int),
{
    let mut acc = String::new();
    let mut cur: u64 = v;
    proof {
        assert(dec_digits(v as int) =~= dec_digits(v as int) + Seq::<char>::empty());
    }
    while cur >= 10
        invariant
            dec_digits(v as int) == dec_digits(cur as int) + acc@,
        decreases cur,
    {
        let ghost prev_acc = acc@;
        let d = digit_string((cur % 10) as u32);
        acc = d.concat(acc.as_str());
        proof {
            assert(dec_digits(cur as int) == dec_digits(cur as int / 10).push(
                hex_digit(cur as int % 10),
            ));
            assert(dec_digits(cur as int / 10).push(hex_digit(cur as int % 10)) + prev_acc
                =~= dec_digits(cur as int / 10) + acc@);
        }
        cur = cur / 10;
    }
    let d = digit_string((cur % 10) as u32);
    let r = d.concat(acc.as_str());
    proof {
        assert(cur as int % 10 == cur as int);
        assert(seq![hex_digit(cur as int)] + acc@ =~= dec_digits(cur as int) + acc@);
    }
    r
}

/// Decides [`is_dec`], returning the digit's value.
pub(crate) fn dec_val_char(c: char) -> (r: Option<u32>)
    ensures
        match r {
            Some(v) => v < 10 && v as int == hex_val(c),
            None => !is_dec(c),
        },
{
    match hex_val_char(c) {
        Some(v) => if v < 10 {
            Some(v)
        } else {
            None
        },
        None => None,
    }
}

/// Parses a decimal `u64` starting at `pos`, returning the value and the
/// position after the digits.
fn parse_json_u64(s: &str, pos: usize, n: usize) -> (r: Option<(u64, usize)>)
    requires
        n == s@.len(),
        pos <= n,
    ensures
        match r {
            Some((v, p)) => pos < p <= n && parse_u64(s@.skip(pos as int)) == Some(
                (v, s@.skip(p as int)),
            ),
            None => parse_u64(s@.skip(pos as int)) is None,
        },
{
    if pos == n {
        return None;
    }
    proof {
        assert(s@.skip(pos as int)[0] == s@[pos as int]);
        assert(s@.skip(pos as int).skip(1) =~= s@.skip(pos + 1));
    }
    let d0 = match dec_val_char(s.get_char(pos)) {
        Some(d) => d,
        None => {
            return None;
        },
    };
    let mut acc: u64 = d0 as u64;
    let mut i: usize = pos + 1;
    while i < n && is_digit_char(s.get_char(i))
        invariant
            n == s@.len(),
            pos < i <= n,
            is_dec(s@[pos as int]),
            parse_digits(s@.skip(pos as int), 0) == parse_digits(s@.skip(i as int), acc as int),
        decreases n - i,
    {
        let ghost tail = s@.skip(i as int);
        let d = match dec_val_char(s.get_char(i)) {
            Some(d) => d,
            None => {
                proof {
                    assert(false);
                }
                0
            },
        };
        proof {
            assert(tail[0] == s@[i as int]);
            assert(tail.skip(1) =~= s@.skip(i + 1));
        }
        if acc > (u64::MAX - d as u64) / 10 {
            proof {
                lemma_parse_digits_ge(s@.skip(i + 1), acc as int * 10 + hex_val(tail[0]));
                assert(parse_digits(s@.skip(pos as int), 0).0 > u64::MAX);
            }
            return None;
        }
        acc = acc * 10 + d as u64;
        i += 1;
    }
    proof {
        if i < n {
            assert(s@.skip(i as int)[0] == s@[i as int]);
        }
        assert(parse_digits(s@.skip(i as int), acc as int) == (acc as int, s@.skip(i as int)));
        assert(s@.skip(pos as int)[0] == s@[pos as int]);
    }
    Some((acc, i))
}

/// Decides [`is_dec`].
fn is_digit_char(c: char) -> (r: bool)
    ensures
        r == is_dec(c),
{
    match dec_val_char(c) {
        Some(_) => true,
        None => false,
    }
}

/// One alias entry: token and replacement, both as JSON strings.
pub open spec fn ser_amap_entry(e: (String, String)) -> Seq<char> {
    ser_string(e.0@) + seq![':'] + ser_string(e.1@)
}

/// The comma-separated alias entries.
pub open spec fn ser_amap_entries(s: Seq<(String, String)>) -> Seq<char>
    decreases s.len(),
{
    if s.len() == 0 {
        Seq::empty()
    } else if s.len() == 1 {
        ser_amap_entry(s[0])
    } else {
        ser_amap_entries(s.drop_last()) + seq![','] + ser_amap_entry(s.last())
    }
}

/// One namespace's alias map as a JSON object.
pub open spec fn ser_amap(pairs: Seq<(String, String)>) -> Seq<char> {
    seq!['{'] + ser_amap_entries(pairs) + seq!['}']
}

/// One table entry: namespace name and its alias map.
pub open spec fn ser_table_entry(e: (String, Vec<(String, String)>)) -> Seq<char> {
    ser_string(e.0@) + seq![':'] + ser_amap(e.1@)
}

/// The comma-separated table entries.
pub open spec fn ser_table_entries(s: Seq<(String, Vec<(String, String)>)>) -> Seq<char>
    decreases s.len(),
{
    if s.len() == 0 {
        Seq::empty()
    } else if s.len() == 1 {
        ser_table_entry(s[0])
    } else {
        ser_table_entries(s.drop_last()) + seq![','] + ser_table_entry(s.last())
    }
}

/// The namespace table as a JSON object.
pub open spec fn ser_table(s: Seq<(String, Vec<(String, String)>)>) -> Seq<char> {
    seq!['{'] + ser_table_entries(s) + seq!['}']
}

/// One serialized user: the `namespace` and `alias` fields.
pub closed spec fn ser_user(u: User) -> Seq<char> {
    seq!['{'] + ser_string("namespace"@) + seq![':'] + ser_string(u.namespace@) + seq![',']
        + ser_string("alias"@) + seq![':'] + ser_table(u.alias@) + seq!['}']
}

/// A user identifier as a JSON key: the decimal digits in quotes.
pub open spec fn ser_key(id: u64) -> Seq<char> {
    seq!['"'] + dec_digits(id as int) + seq!['"']
}

/// One store entry: identifier key and serialized user.
pub closed spec fn ser_users_entry(e: (u64, User)) -> Seq<char> {
    ser_key(e.0) + seq![':'] + ser_user(e.1)
}

/// The comma-separated store entries.
pub closed spec fn ser_users_entries(s: Seq<(u64, User)>) -> Seq<char>
    decreases s.len(),
{
    if s.len() == 0 {
        Seq::empty()
    } else if s.len() == 1 {
        ser_users_entry(s[0])
    } else {
        ser_users_entries(s.drop_last()) + seq![','] + ser_users_entry(s.last())
    }
}

/// The serialized store: a JSON object of all user entries, in the store's
/// own order.
pub closed spec fn ser_users(s: Seq<(u64, User)>) -> Seq<char> {
    seq!['{'] + ser_users_entries(s) + seq!['}']
}

/// Appends one alias map to `out`.
fn write_amap(out: &mut String, pairs: &Vec<(String, String)>)
    ensures
        final (out)@ == old(out)@ + ser_amap(pairs@),
{
    push_char(out, '{');
    let n = pairs.len();
    let mut i: usize = 0;
    proof {
        assert(ser_amap_entries(pairs@.take(0)) =~= Seq::<char>::empty());
        assert(out@ =~= old(out)@ + seq!['{'] + ser_amap_entries(pairs@.take(0)));
    }
    while i < n
        invariant
            n == pairs@.len(),
            0 <= i <= n,
            out@ == old(out)@ + seq!['{'] + ser_amap_entries(pairs@.take(i as int)),
        decreases n - i,
    {
        let ghost out0 = out@;
        if i > 0 {
            push_char(out, ',');
        }
        write_json_string(out, pairs[i].0.as_str());
        push_char(out, ':');
        write_json_string(out, pairs[i].1.as_str());
        proof {
            let e = pairs@[i as int];
            if i == 0 {
                assert(out@ =~= out0 + ser_amap_entry(e));
            } else {
                assert(out@ =~= out0 + seq![','] + ser_amap_entry(e));
            }
        }
        i += 1;
        proof {
            let t = pairs@.take(i as int);
            assert(t.drop_last() =~= pairs@.take(i - 1));
            assert(t.last() == pairs@[i - 1]);
            if i == 1 {
                assert(ser_amap_entries(t) == ser_amap_entry(t[0]));
                assert(out@ =~= old(out)@ + seq!['{'] + ser_amap_entries(t));
            } else {
                assert(ser_amap_entries(t) == ser_amap_entries(pairs@.take(i - 1)) + seq![',']
                    + ser_amap_entry(pairs@[i - 1]));
                assert(out@ =~= old(out)@ + seq!['{'] + ser_amap_entries(t));
            }
        }
    }
    push_char(out, '}');
    proof {
        assert(pairs@.take(n as int) =~= pairs@);
        assert(out@ =~= old(out)@ + ser_amap(pairs@));
    }
}

/// Appends one namespace table to `out`.
fn write_table(out: &mut String, table: &Vec<(String, Vec<(String, String)>)>)
    ensures
        final (out)@ == old(out)@ + ser_table(table@),
{
    push_char(out, '{');
    let n = table.len();
    let mut i: usize = 0;
    proof {
        assert(ser_table_entries(table@.take(0)) =~= Seq::<char>::empty());
        assert(out@ =~= old(out)@ + seq!['{'] + ser_table_entries(table@.take(0)));
    }
    while i < n
        invariant
            n == table@.len(),
            0 <= i <= n,
            out@ == old(out)@ + seq!['{'] + ser_table_entries(table@.take(i as int)),
        decreases n - i,
    {
        let ghost out0 = out@;
        if i > 0 {
            push_char(out, ',');
        }
        write_json_string(out, table[i].0.as_str());
        push_char(out, ':');
        write_amap(out, &table[i].1);
        proof {
            let e = table@[i as int];
            if i == 0 {
                assert(out@ =~= out0 + ser_table_entry(e));
            } else {
                assert(out@ =~= out0 + seq![','] + ser_table_entry(e));
            }
        }
        i += 1;
        proof {
            let t = table@.take(i as int);
            assert(t.drop_last() =~= table@.take(i - 1));
            assert(t.last() == table@[i - 1]);
            if i == 1 {
                assert(ser_table_entries(t) == ser_table_entry(t[0]));
                assert(out@ =~= old(out)@ + seq!['{'] + ser_table_entries(t));
            } else {
                assert(ser_table_entries(t) == ser_table_entries(table@.take(i - 1)) + seq![',']
                    + ser_table_entry(table@[i - 1]));
                assert(out@ =~= old(out)@ + seq!['{'] + ser_table_entries(t));
            }
        }
    }
    push_char(out, '}');
    proof {
        assert(table@.take(n as int) =~= table@);
        assert(out@ =~= old(out)@ + ser_table(table@));
    }
}

/// Appends one user to `out`.
fn write_user(out: &mut String, u: &User)
    ensures
        final (out)@ == old(out)@ + ser_user(*u),
{
    push_char(out, '{');
    write_json_string(out, "namespace");
    push_char(out, ':');
    write_json_string(out, u.namespace.as_str());
    push_char(out, ',');
    write_json_string(out, "alias");
    push_char(out, ':');
    write_table(out, &u.alias);
    push_char(out, '}');
    proof {
        assert(out@ =~= old(out)@ + ser_user(*u));
    }
}

/// The parsed form of one namespace's alias map: token and replacement
/// character sequences, in source order.
pub type GAlias = Seq<(Seq<char>, Seq<char>)>;

/// The parsed form of a namespace table.
pub type GTable = Seq<(Seq<char>, GAlias)>;

/// The parsed form of one user: active namespace and table.
pub type GUser = (Seq<char>, GTable);

/// The parsed form of a whole snapshot.
pub type GSnap = Seq<(u64, GUser)>;

/// The parsed view of an alias entry list.
pub open spec fn galias_of(v: Seq<(String, String)>) -> GAlias {
    v.map_values(|p: (String, String)| (p.0@, p.1@))
}

/// The parsed view of a namespace table entry list.
pub open spec fn gtable_of(v: Seq<(String, Vec<(String, String)>)>) -> GTable {
    v.map_values(|e: (String, Vec<(String, String)>)| (e.0@, galias_of(e.1@)))
}

/// The parsed view of one user.
pub closed spec fn guser_of(u: User) -> GUser {
    (u.namespace@, gtable_of(u.alias@))
}

/// The parsed view of the store's entry list.
pub closed spec fn gsnap_of(v: Seq<(u64, User)>) -> GSnap {
    v.map_values(|e: (u64, User)| (e.0, guser_of(e.1)))
}

/// Parses the entries of an alias-map object, ending over the closing brace.
pub open spec fn parse_amap_entries(s: Seq<char>) -> Option<(GAlias, Seq<char>)>
    decreases s.len(),
{
    match parse_string(s) {
        Some((k, r1)) => {
            let r1w = ws(r1);
            if r1w.len() > 0 && r1w[0] == ':' {
                match parse_string(r1w.skip(1)) {
                    Some((v, r2)) => {
                        let r2w = ws(r2);
                        if r2w.len() > 0 && r2w[0] == ',' {
                            if r2w.skip(1).len() < s.len() {
                                match parse_amap_entries(r2w.skip(1)) {
                                    Some((es, r3)) => Some((seq![(k, v)] + es, r3)),
                                    None => None,
                                }
                            } else {
                                None
                            }
                        } else if r2w.len() > 0 && r2w[0] == '}' {
                            Some((seq![(k, v)], r2w.skip(1)))
                        } else {
                            None
                        }
                    },
                    None => None,
                }
            } else {
                None
            }
        },
        None => None,
    }
}

/// Parses an alias-map object.
pub open spec fn parse_amap(s: Seq<char>) -> Option<(GAlias, Seq<char>)> {
    let s1 = ws(s);
    if s1.len() >= 1 && s1[0] == '{' {
        let s2 = ws(s1.skip(1));
        if s2.len() >= 1 && s2[0] == '}' {
            Some((Seq::empty(), s2.skip(1)))
        } else {
            parse_amap_entries(s1.skip(1))
        }
    } else {
        None
    }
}

/// Parses the entries of a namespace-table object.
pub open spec fn parse_table_entries(s: Seq<char>) -> Option<(GTable, Seq<char>)>
    decreases s.len(),
{
    match parse_string(s) {
        Some((k, r1)) => {
            let r1w = ws(r1);
            if r1w.len() > 0 && r1w[0] == ':' {
                match parse_amap(r1w.skip(1)) {
                    Some((v, r2)) => {
                        let r2w = ws(r2);
                        if r2w.len() > 0 && r2w[0] == ',' {
                            if r2w.skip(1).len() < s.len() {
                                match parse_table_entries(r2w.skip(1)) {
                                    Some((es, r3)) => Some((seq![(k, v)] + es, r3)),
                                    None => None,
                                }
                            } else {
                                None
                            }
                        } else if r2w.len() > 0 && r2w[0] == '}' {
                            Some((seq![(k, v)], r2w.skip(1)))
                        } else {
                            None
                        }
                    },
                    None => None,
                }
            } else {
                None
            }
        },
        None => None,
    }
}

/// Parses a namespace-table object.
pub open spec fn parse_table(s: Seq<char>) -> Option<(GTable, Seq<char>)> {
    let s1 = ws(s);
    if s1.len() >= 1 && s1[0] == '{' {
        let s2 = ws(s1.skip(1));
        if s2.len() >= 1 && s2[0] == '}' {
            Some((Seq::empty(), s2.skip(1)))
        } else {
            parse_table_entries(s1.skip(1))
        }
    } else {
        None
    }
}

/// Parses one user object: the `namespace` field, then the `alias` field,
/// over insignificant whitespace.
pub open spec fn parse_user(s: Seq<char>) -> Option<(GUser, Seq<char>)> {
    let s1 = ws(s);
    if s1.len() > 0 && s1[0] == '{' {
        match parse_string(s1.skip(1)) {
            Some((k1, r1)) => {
                let r1w = ws(r1);
                if k1 == "namespace"@ && r1w.len() > 0 && r1w[0] == ':' {
                    match parse_string(r1w.skip(1)) {
                        Some((ns, r2)) => {
                            let r2w = ws(r2);
                            if r2w.len() > 0 && r2w[0] == ',' {
                                match parse_string(r2w.skip(1)) {
                                    Some((k2, r3)) => {
                                        let r3w = ws(r3);
                                        if k2 == "alias"@ && r3w.len() > 0 && r3w[0] == ':' {
                                            match parse_table(r3w.skip(1)) {
                                                Some((tb, r4)) => {
                                                    let r4w = ws(r4);
                                                    if r4w.len() > 0 && r4w[0] == '}' {
                                                        Some(((ns, tb), r4w.skip(1)))
                                                    } else {
                                                        None
                                                    }
                                                },
                                                None => None,
                                            }
                                        } else {
                                            None
                                        }
                                    },
                                    None => None,
                                }
                            } else {
                                None
                            }
                        },
                        None => None,
                    }
                } else {
                    None
                }
            },
            None => None,
        }
    } else {
        None
    }
}

/// Parses a store key: a decimal identifier in quotes, over leading
/// whitespace.
pub open spec fn parse_key(s: Seq<char>) -> Option<(u64, Seq<char>)> {
    let s1 = ws(s);
    if s1.len() > 0 && s1[0] == '"' {
        match parse_u64(s1.skip(1)) {
            Some((v, r)) => if r.len() > 0 && r[0] == '"' {
                Some((v, r.skip(1)))
            } else {
                None
            },
            None => None,
        }
    } else {
        None
    }
}

/// Parses the entries of the top-level snapshot object.
pub open spec fn parse_users_entries(s: Seq<char>) -> Option<(GSnap, Seq<char>)>
    decreases s.len(),
{
    match parse_key(s) {
        Some((k, r1)) => {
            let r1w = ws(r1);
            if r1w.len() > 0 && r1w[0] == ':' {
                match parse_user(r1w.skip(1)) {
                    Some((v, r2)) => {
                        let r2w = ws(r2);
                        if r2w.len() > 0 && r2w[0] == ',' {
                            if r2w.skip(1).len() < s.len() {
                                match parse_users_entries(r2w.skip(1)) {
                                    Some((es, r3)) => Some((seq![(k, v)] + es, r3)),
                                    None => None,
                                }
                            } else {
                                None
                            }
                        } else if r2w.len() > 0 && r2w[0] == '}' {
                            Some((seq![(k, v)], r2w.skip(1)))
                        } else {
                            None
                        }
                    },
                    None => None,
                }
            } else {
                None
            }
        },
        None => None,
    }
}

/// Parses a whole snapshot: the top-level object, with nothing but
/// insignificant whitespace around and after it.
pub open spec fn parse_snapshot(s: Seq<char>) -> Option<GSnap> {
    let s1 = ws(s);
    if s1.len() >= 1 && s1[0] == '{' {
        let s2 = ws(s1.skip(1));
        if s2.len() >= 1 && s2[0] == '}' {
            if ws(s2.skip(1)).len() == 0 {
                Some(Seq::empty())
            } else {
                None
            }
        } else {
            match parse_users_entries(s1.skip(1)) {
                Some((es, r)) => if ws(r).len() == 0 {
                    Some(es)
                } else {
                    None
                },
                None => None,
            }
        }
    } else {
        None
    }
}

/// Appends one store entry to `out`.
fn write_users_entry(out: &mut String, id: u64, u: &User)
    ensures
        final (out)@ == old(out)@ + ser_users_entry((id, *u)),
{
    push_char(out, '"');
    let digits = u64_digits(id);
    out.append(digits.as_str());
    push_char(out, '"');
    push_char(out, ':');
    write_user(out, u);
    proof {
        assert(out@ =~= old(out)@ + ser_users_entry((id, *u)));
    }
}

} // verus!

verus! {

/// Parses an alias-map object starting at `pos`.
fn parse_json_amap(s: &str, pos: usize, n: usize) -> (r: Option<(Vec<(String, String)>, usize)>)
    requires
        n == s@.len(),
        pos <= n,
    ensures
        match r {
            Some((v, p)) => pos < p <= n && parse_amap(s@.skip(pos as int)) == Some(
                (galias_of(v@), s@.skip(p as int)),
            ),
            None => parse_amap(s@.skip(pos as int)) is None,
        },
{
    let q0 = skip_ws(s, pos, n);
    if q0 == n {
        return None;
    }
    proof {
        assert(s@.skip(q0 as int)[0] == s@[q0 as int]);
        assert(s@.skip(q0 as int).skip(1) =~= s@.skip(q0 + 1));
    }
    if s.get_char(q0) != '{' {
        return None;
    }
    let q1 = skip_ws(s, q0 + 1, n);
    if q1 < n && s.get_char(q1) == '}' {
        proof {
            assert(s@.skip(q1 as int)[0] == s@[q1 as int]);
            assert(s@.skip(q1 as int).skip(1) =~= s@.skip(q1 + 1));
            assert(galias_of(Seq::<(String, String)>::empty()) =~= Seq::<
                (Seq<char>, Seq<char>),
            >::empty());
        }
        return Some((Vec::new(), q1 + 1));
    }
    proof {
        if q1 < n {
            assert(s@.skip(q1 as int)[0] == s@[q1 as int]);
        }
    }
    let mut out: Vec<(String, String)> = Vec::new();
    let mut cur: usize = q0 + 1;
    proof {
        let pe = parse_amap_entries(s@.skip(q0 + 1));
        if pe is Some {
            assert(galias_of(out@) =~= Seq::<(Seq<char>, Seq<char>)>::empty());
            assert(galias_of(out@) + pe->Some_0.0 =~= pe->Some_0.0);
        }
    }
    loop
        invariant
            n == s@.len(),
            pos <= q0 < n,
            q0 < cur <= n,
            parse_amap(s@.skip(pos as int)) == parse_amap_entries(s@.skip(q0 + 1)),
            parse_amap_entries(s@.skip(q0 + 1)) == match parse_amap_entries(s@.skip(cur as int)) {
                Some((es, r)) => Some::<(GAlias, Seq<char>)>((galias_of(out@) + es, r)),
                None => None::<(GAlias, Seq<char>)>,
            },
        decreases n - cur,
    {
        let ghost tail = s@.skip(cur as int);
        let (k, p1) = match parse_json_string(s, cur, n) {
            Some(kv) => kv,
            None => {
                return None;
            },
        };
        let p1w = skip_ws(s, p1, n);
        if p1w == n || s.get_char(p1w) != ':' {
            proof {
                if p1w < n {
                    assert(s@.skip(p1w as int)[0] == s@[p1w as int]);
                }
                assert(parse_amap_entries(tail) is None);
            }
            return None;
        }
        proof {
            assert(s@.skip(p1w as int)[0] == s@[p1w as int]);
            assert(s@.skip(p1w as int).skip(1) =~= s@.skip(p1w + 1));
        }
        let (v, p2) = match parse_json_string(s, p1w + 1, n) {
            Some(kv) => kv,
            None => {
                proof {
                    assert(parse_amap_entries(tail) is None);
                }
                return None;
            },
        };
        let ghost out0 = out@;
        out.push((k, v));
        proof {
            assert(galias_of(out@) =~= galias_of(out0).push((out@.last().0@, out@.last().1@)));
        }
        let p2w = skip_ws(s, p2, n);
        if p2w < n && s.get_char(p2w) == ',' {
            proof {
                assert(s@.skip(p2w as int)[0] == s@[p2w as int]);
                assert(s@.skip(p2w as int).skip(1) =~= s@.skip(p2w + 1));
                assert(s@.skip(p2w + 1).len() < tail.len());
                assert forall|es: GAlias| true implies galias_of(out0) + (seq![
                    (out@.last().0@, out@.last().1@),
                ] + es) =~= galias_of(out@) + es by {}
            }
            cur = p2w + 1;
        } else if p2w < n && s.get_char(p2w) == '}' {
            proof {
                assert(s@.skip(p2w as int)[0] == s@[p2w as int]);
                assert(s@.skip(p2w as int).skip(1) =~= s@.skip(p2w + 1));
                assert(galias_of(out0) + seq![(out@.last().0@, out@.last().1@)] =~= galias_of(
                    out@,
                ));
            }
            return Some((out, p2w + 1));
        } else {
            proof {
                if p2w < n {
                    assert(s@.skip(p2w as int)[0] == s@[p2w as int]);
                }
                assert(parse_amap_entries(tail) is None);
            }
            return None;
        }
    }
}

/// Parses a namespace-table object starting at `pos`.
fn parse_json_table(s: &str, pos: usize, n: usize) -> (r: Option<
    (Vec<(String, Vec<(String, String)>)>, usize),
>)
    requires
        n == s@.len(),
        pos <= n,
    ensures
        match r {
            Some((v, p)) => pos < p <= n && parse_table(s@.skip(pos as int)) == Some(
                (gtable_of(v@), s@.skip(p as int)),
            ),
            None => parse_table(s@.skip(pos as int)) is None,
        },
{
    let q0 = skip_ws(s, pos, n);
    if q0 == n {
        return None;
    }
    proof {
        assert(s@.skip(q0 as int)[0] == s@[q0 as int]);
        assert(s@.skip(q0 as int).skip(1) =~= s@.skip(q0 + 1));
    }
    if s.get_char(q0) != '{' {
        return None;
    }
    let q1 = skip_ws(s, q0 + 1, n);
    if q1 < n && s.get_char(q1) == '}' {
        proof {
            assert(s@.skip(q1 as int)[0] == s@[q1 as int]);
            assert(s@.skip(q1 as int).skip(1) =~= s@.skip(q1 + 1));
            assert(gtable_of(Seq::<(String, Vec<(String, String)>)>::empty()) =~= Seq::<
                (Seq<char>, GAlias),
            >::empty());
        }
        return Some((Vec::new(), q1 + 1));
    }
    proof {
        if q1 < n {
            assert(s@.skip(q1 as int)[0] == s@[q1 as int]);
        }
    }
    let mut out: Vec<(String, Vec<(String, String)>)> = Vec::new();
    let mut cur: usize = q0 + 1;
    proof {
        let pe = parse_table_entries(s@.skip(q0 + 1));
        if pe is Some {
            assert(gtable_of(out@) =~= Seq::<(Seq<char>, GAlias)>::empty());
            assert(gtable_of(out@) + pe->Some_0.0 =~= pe->Some_0.0);
        }
    }
    loop
        invariant
            n == s@.len(),
            pos <= q0 < n,
            q0 < cur <= n,
            parse_table(s@.skip(pos as int)) == parse_table_entries(s@.skip(q0 + 1)),
            parse_table_entries(s@.skip(q0 + 1)) == match parse_table_entries(
                s@.skip(cur as int),
            ) {
                Some((es, r)) => Some::<(GTable, Seq<char>)>((gtable_of(out@) + es, r)),
                None => None::<(GTable, Seq<char>)>,
            },
        decreases n - cur,
    {
        let ghost tail = s@.skip(cur as int);
        let (k, p1) = match parse_json_string(s, cur, n) {
            Some(kv) => kv,
            None => {
                return None;
            },
        };
        let p1w = skip_ws(s, p1, n);
        if p1w == n || s.get_char(p1w) != ':' {
            proof {
                if p1w < n {
                    assert(s@.skip(p1w as int)[0] == s@[p1w as int]);
                }
                assert(parse_table_entries(tail) is None);
            }
            return None;
        }
        proof {
            assert(s@.skip(p1w as int)[0] == s@[p1w as int]);
            assert(s@.skip(p1w as int).skip(1) =~= s@.skip(p1w + 1));
        }
        let (v, p2) = match parse_json_amap(s, p1w + 1, n) {
            Some(kv) => kv,
            None => {
                proof {
                    assert(parse_table_entries(tail) is None);
                }
                return None;
            },
        };
        let ghost out0 = out@;
        out.push((k, v));
        proof {
            assert(gtable_of(out@) =~= gtable_of(out0).push(
                (out@.last().0@, galias_of(out@.last().1@)),
            ));
        }
        let p2w = skip_ws(s, p2, n);
        if p2w < n && s.get_char(p2w) == ',' {
            proof {
                assert(s@.skip(p2w as int)[0] == s@[p2w as int]);
                assert(s@.skip(p2w as int).skip(1) =~= s@.skip(p2w + 1));
                assert(s@.skip(p2w + 1).len() < tail.len());
                assert forall|es: GTable| true implies gtable_of(out0) + (seq![
                    (out@.last().0@, galias_of(out@.last().1@)),
                ] + es) =~= gtable_of(out@) + es by {}
            }
            cur = p2w + 1;
        } else if p2w < n && s.get_char(p2w) == '}' {
            proof {
                assert(s@.skip(p2w as int)[0] == s@[p2w as int]);
                assert(s@.skip(p2w as int).skip(1) =~= s@.skip(p2w + 1));
                assert(gtable_of(out0) + seq![(out@.last().0@, galias_of(out@.last().1@))]
                    =~= gtable_of(out@));
            }
            return Some((out, p2w + 1));
        } else {
            proof {
                if p2w < n {
                    assert(s@.skip(p2w as int)[0] == s@[p2w as int]);
                }
                assert(parse_table_entries(tail) is None);
            }
            return None;
        }
    }
}

/// Parses one user object starting at `pos`, returning the active namespace
/// and the table entries.
#[verifier::rlimit(100)]
#[verifier::spinoff_prover]
fn parse_json_user(s: &str, pos: usize, n: usize) -> (r: Option<
    ((String, Vec<(String, Vec<(String, String)>)>), usize),
>)
    requires
        n == s@.len(),
        pos <= n,
    ensures
        match r {
            Some((v, p)) => pos < p <= n && parse_user(s@.skip(pos as int)) == Some(
                ((v.0@, gtable_of(v.1@)), s@.skip(p as int)),
            ),
            None => parse_user(s@.skip(pos as int)) is None,
        },
{
    let q0 = skip_ws(s, pos, n);
    if q0 == n {
        return None;
    }
    proof {
        assert(s@.skip(q0 as int)[0] == s@[q0 as int]);
        assert(s@.skip(q0 as int).skip(1) =~= s@.skip(q0 + 1));
    }
    if s.get_char(q0) != '{' {
        return None;
    }
    let (k1, p1) = match parse_json_string(s, q0 + 1, n) {
        Some(kv) => kv,
        None => {
            return None;
        },
    };
    if !(k1 == "namespace".to_owned()) {
        return None;
    }
    let p1w = skip_ws(s, p1, n);
    if p1w == n || s.get_char(p1w) != ':' {
        proof {
            if p1w < n {
                assert(s@.skip(p1w as int)[0] == s@[p1w as int]);
            }
        }
        return None;
    }
    proof {
        assert(s@.skip(p1w as int)[0] == s@[p1w as int]);
        assert(s@.skip(p1w as int).skip(1) =~= s@.skip(p1w + 1));
    }
    let (ns, p2) = match parse_json_string(s, p1w + 1, n) {
        Some(kv) => kv,
        None => {
            return None;
        },
    };
    let p2w = skip_ws(s, p2, n);
    if p2w == n || s.get_char(p2w) != ',' {
        proof {
            if p2w < n {
                assert(s@.skip(p2w as int)[0] == s@[p2w as int]);
            }
        }
        return None;
    }
    proof {
        assert(s@.skip(p2w as int)[0] == s@[p2w as int]);
        assert(s@.skip(p2w as int).skip(1) =~= s@.skip(p2w + 1));
    }
    let (k2, p3) = match parse_json_string(s, p2w + 1, n) {
        Some(kv) => kv,
        None => {
            return None;
        },
    };
    if !(k2 == "alias".to_owned()) {
        return None;
    }
    let p3w = skip_ws(s, p3, n);
    if p3w == n || s.get_char(p3w) != ':' {
        proof {
            if p3w < n {
                assert(s@.skip(p3w as int)[0] == s@[p3w as int]);
            }
        }
        return None;
    }
    proof {
        assert(s@.skip(p3w as int)[0] == s@[p3w as int]);
        assert(s@.skip(p3w as int).skip(1) =~= s@.skip(p3w + 1));
    }
    let (tb, p4) = match parse_json_table(s, p3w + 1, n) {
        Some(kv) => kv,
        None => {
            return None;
        },
    };
    let p4w = skip_ws(s, p4, n);
    if p4w == n || s.get_char(p4w) != '}' {
        proof {
            if p4w < n {
                assert(s@.skip(p4w as int)[0] == s@[p4w as int]);
            }
        }
        return None;
    }
    proof {
        assert(s@.skip(p4w as int)[0] == s@[p4w as int]);
        assert(s@.skip(p4w as int).skip(1) =~= s@.skip(p4w + 1));
    }
    Some(((ns, tb), p4w + 1))
}

/// Key of a parsed alias pair.
pub open spec fn gp_key(p: (Seq<char>, Seq<char>)) -> Seq<char> {
    p.0
}

/// Value of a parsed alias pair.
pub open spec fn gp_val(p: (Seq<char>, Seq<char>)) -> Seq<char> {
    p.1
}

/// The alias map abstracted from a parsed entry list.
pub open spec fn gamap(s: GAlias) -> Map<Seq<char>, Seq<char>> {
    pmap(s, |p: (Seq<char>, Seq<char>)| gp_key(p), |p: (Seq<char>, Seq<char>)| gp_val(p))
}

/// Key of a parsed table entry.
pub open spec fn gt_key(e: (Seq<char>, GAlias)) -> Seq<char> {
    e.0
}

/// Value of a parsed table entry.
pub open spec fn gt_val(e: (Seq<char>, GAlias)) -> Map<Seq<char>, Seq<char>> {
    gamap(e.1)
}

/// The table abstracted from a parsed entry list.
pub open spec fn gtmap(s: GTable) -> Map<Seq<char>, Map<Seq<char>, Seq<char>>> {
    pmap(s, |e: (Seq<char>, GAlias)| gt_key(e), |e: (Seq<char>, GAlias)| gt_val(e))
}

/// The abstract state described by a parsed user.
pub open spec fn guser_model(u: GUser) -> UserModel {
    UserModel { current: u.0, table: gtmap(u.1) }
}

/// The abstract state described by a parsed snapshot; a later entry with the
/// same identifier wins, as repeated insertion would have it.
pub open spec fn gsnap_model(s: GSnap) -> Map<u64, UserModel> {
    pmap(s, |e: (u64, GUser)| e.0, |e: (u64, GUser)| guser_model(e.1))
}

/// Whether a parsed user satisfies the store's invariants.
pub open spec fn guser_valid(u: GUser) -> bool {
    &&& pdistinct(u.1, |e: (Seq<char>, GAlias)| gt_key(e))
    &&& (forall|i: int|
        0 <= i < u.1.len() ==> pdistinct(
            (#[trigger] u.1[i]).1,
            |p: (Seq<char>, Seq<char>)| gp_key(p),
        ))
    &&& (forall|i: int| 0 <= i < u.1.len() ==> (#[trigger] u.1[i]).0.len() > 0)
    &&& (forall|i: int, j: int|
        0 <= i < u.1.len() && 0 <= j < u.1[i].1.len() ==> (#[trigger] u.1[i].1[j]).0.len() > 0)
    &&& gtmap(u.1).contains_key("default"@)
    &&& gtmap(u.1).contains_key(u.0)
}

/// Whether every user of a parsed snapshot satisfies the store's invariants.
pub open spec fn gsnap_valid(s: GSnap) -> bool {
    forall|i: int| 0 <= i < s.len() ==> guser_valid((#[trigger] s[i]).1)
}

/// The store described by a snapshot text: the parsed store when the text
/// parses and satisfies the invariants, and the empty store otherwise.
pub open spec fn snapshot_model(j: Seq<char>) -> Map<u64, UserModel> {
    match parse_snapshot(j) {
        Some(es) => if gsnap_valid(es) {
            gsnap_model(es)
        } else {
            Map::<u64, UserModel>::empty()
        },
        None => Map::<u64, UserModel>::empty(),
    }
}

/// A parsed alias entry list abstracts to the same map as the entry list it
/// is the view of.
proof fn lemma_gamap_bridge(v: Seq<(String, String)>)
    ensures
        gamap(galias_of(v)) == crate::database::amap(v),
    decreases v.len(),
{
    if v.len() == 0 {
        assert(galias_of(v) =~= Seq::<(Seq<char>, Seq<char>)>::empty());
        assert(gamap(galias_of(v)) =~= crate::database::amap(v));
    } else {
        lemma_gamap_bridge(v.drop_last());
        assert(galias_of(v).drop_last() =~= galias_of(v.drop_last()));
        assert(galias_of(v).last() == (v.last().0@, v.last().1@));
        assert(gamap(galias_of(v)) =~= crate::database::amap(v));
    }
}

/// A parsed table abstracts to the same map as the entry list it is the view
/// of.
proof fn lemma_gtmap_bridge(v: Seq<(String, Vec<(String, String)>)>)
    ensures
        gtmap(gtable_of(v)) == crate::database::tmap(v),
    decreases v.len(),
{
    if v.len() == 0 {
        assert(gtable_of(v) =~= Seq::<(Seq<char>, GAlias)>::empty());
        assert(gtmap(gtable_of(v)) =~= crate::database::tmap(v));
    } else {
        lemma_gtmap_bridge(v.drop_last());
        lemma_gamap_bridge(v.last().1@);
        assert(gtable_of(v).drop_last() =~= gtable_of(v.drop_last()));
        assert(gtable_of(v).last() == (v.last().0@, galias_of(v.last().1@)));
        assert(gtmap(gtable_of(v)) =~= crate::database::tmap(v));
    }
}

/// A parsed user is valid exactly when the representation it is the view of
/// is well-formed.
proof fn lemma_valid_bridge(ns: Seq<char>, v: Seq<(String, Vec<(String, String)>)>)
    ensures
        guser_valid((ns, gtable_of(v))) == crate::database::rep_wf(ns, v),
{
    lemma_gtmap_bridge(v);
    let g = gtable_of(v);
    assert(g.len() == v.len());
    assert(forall|i: int| 0 <= i < v.len() ==> (#[trigger] g[i]) == (v[i].0@, galias_of(v[i].1@)));
    if guser_valid((ns, g)) {
        assert forall|i: int, j: int| 0 <= i < j < v.len() implies crate::database::ns_key(
            #[trigger] v[i],
        ) != crate::database::ns_key(#[trigger] v[j]) by {
            assert(gt_key(g[i]) != gt_key(g[j]));
        }
        assert forall|i: int| 0 <= i < v.len() implies pdistinct(
            (#[trigger] v[i]).1@,
            |e: (String, String)| crate::database::pair_key(e),
        ) by {
            let gi = g[i].1;
            let vi = v[i].1@;
            assert(pdistinct(gi, |p: (Seq<char>, Seq<char>)| gp_key(p)));
            assert forall|x: int, y: int| 0 <= x < y < vi.len() implies crate::database::pair_key(
                #[trigger] vi[x],
            ) != crate::database::pair_key(#[trigger] vi[y]) by {
                assert(gi[x] == (vi[x].0@, vi[x].1@));
                assert(gi[y] == (vi[y].0@, vi[y].1@));
                assert(gp_key(gi[x]) != gp_key(gi[y]));
            }
        }
        assert forall|i: int| 0 <= i < v.len() implies (#[trigger] v[i]).0@.len() > 0 by {
            assert(g[i].0.len() > 0);
        }
        assert forall|i: int, j: int|
            0 <= i < v.len() && 0 <= j < v[i].1@.len() implies (
        #[trigger] v[i].1@[j]).0@.len() > 0 by {
            assert(g[i].1[j] == (v[i].1@[j].0@, v[i].1@[j].1@));
            assert(g[i].1[j].0.len() > 0);
        }
        assert(crate::database::rep_wf(ns, v));
    }
    if crate::database::rep_wf(ns, v) {
        assert forall|i: int, j: int| 0 <= i < j < g.len() implies gt_key(#[trigger] g[i])
            != gt_key(#[trigger] g[j]) by {
            assert(crate::database::ns_key(v[i]) != crate::database::ns_key(v[j]));
        }
        assert forall|i: int| 0 <= i < g.len() implies pdistinct(
            (#[trigger] g[i]).1,
            |p: (Seq<char>, Seq<char>)| gp_key(p),
        ) by {
            let gi = g[i].1;
            let vi = v[i].1@;
            assert(pdistinct(vi, |e: (String, String)| crate::database::pair_key(e)));
            assert forall|x: int, y: int| 0 <= x < y < gi.len() implies gp_key(#[trigger] gi[x])
                != gp_key(#[trigger] gi[y]) by {
                assert(gi[x] == (vi[x].0@, vi[x].1@));
                assert(gi[y] == (vi[y].0@, vi[y].1@));
                assert(crate::database::pair_key(vi[x]) != crate::database::pair_key(vi[y]));
            }
        }
        assert forall|i: int| 0 <= i < g.len() implies (#[trigger] g[i]).0.len() > 0 by {
            assert(v[i].0@.len() > 0);
        }
        assert forall|i: int, j: int|
            0 <= i < g.len() && 0 <= j < g[i].1.len() implies (#[trigger] g[i].1[j]).0.len()
            > 0 by {
            assert(g[i].1[j] == (v[i].1@[j].0@, v[i].1@[j].1@));
            assert(v[i].1@[j].0@.len() > 0);
        }
        assert(guser_valid((ns, g)));
    }
}

/// The snapshot text of a store.
pub closed spec fn snapshot_text(u: Users) -> Seq<char> {
    ser_users(u.users@)
}

impl Users {
    /// Converts the users container to a JSON snapshot, in the compact form
    /// that [`Users::new`] parses.
    pub fn to_json(&self) -> (r: String)
        ensures
            r@ == snapshot_text(*self),
    {
        let mut out = String::new();
        push_char(&mut out, '{');
        let n = self.users.len();
        let mut i: usize = 0;
        proof {
            assert(ser_users_entries(self.users@.take(0)) =~= Seq::<char>::empty());
            assert(out@ =~= Seq::<char>::empty() + seq!['{'] + ser_users_entries(
                self.users@.take(0),
            ));
        }
        while i < n
            invariant
                n == self.users@.len(),
                0 <= i <= n,
                out@ == Seq::<char>::empty() + seq!['{'] + ser_users_entries(
                    self.users@.take(i as int),
                ),
            decreases n - i,
        {
            let ghost out0 = out@;
            if i > 0 {
                push_char(&mut out, ',');
            }
            write_users_entry(&mut out, self.users[i].0, &self.users[i].1);
            proof {
                let e = self.users@[i as int];
                if i == 0 {
                    assert(out@ =~= out0 + ser_users_entry(e));
                } else {
                    assert(out@ =~= out0 + seq![','] + ser_users_entry(e));
                }
            }
            i += 1;
            proof {
                let t = self.users@.take(i as int);
                assert(t.drop_last() =~= self.users@.take(i - 1));
                assert(t.last() == self.users@[i - 1]);
                if i == 1 {
                    assert(ser_users_entries(t) == ser_users_entry(t[0]));
                    assert(out@ =~= Seq::<char>::empty() + seq!['{'] + ser_users_entries(t));
                } else {
                    assert(ser_users_entries(t) == ser_users_entries(self.users@.take(i - 1))
                        + seq![','] + ser_users_entry(self.users@[i - 1]));
                    assert(out@ =~= Seq::<char>::empty() + seq!['{'] + ser_users_entries(t));
                }
            }
        }
        push_char(&mut out, '}');
        proof {
            assert(self.users@.take(n as int) =~= self.users@);
            assert(out@ =~= snapshot_text(*self));
        }
        out
    }

    /// Creates a `Users` instance from a JSON snapshot string.
    ///
    /// A string that does not parse as a snapshot, or whose records do not
    /// satisfy the store's invariants, yields an empty store rather than an
    /// error; when one identifier appears twice, the later record wins.
    #[verifier::rlimit(100)]
    #[verifier::spinoff_prover]
    pub fn new(json: &str) -> (r: Result<Users, Error>)
        ensures
            r matches Ok(us) && us.wf() && us.model() == snapshot_model(json@),
    {
        let n = json.unicode_len();
        let ghost s0 = json@.skip(0);
        proof {
            assert(s0 =~= json@);
        }
        let q0 = skip_ws(json, 0, n);
        if q0 == n {
            return Ok(Users::empty());
        }
        proof {
            assert(json@.skip(q0 as int)[0] == json@[q0 as int]);
            assert(json@.skip(q0 as int).skip(1) =~= json@.skip(q0 + 1));
        }
        if json.get_char(q0) != '{' {
            return Ok(Users::empty());
        }
        let q1 = skip_ws(json, q0 + 1, n);
        if q1 < n && json.get_char(q1) == '}' {
            proof {
                assert(json@.skip(q1 as int)[0] == json@[q1 as int]);
                assert(json@.skip(q1 as int).skip(1) =~= json@.skip(q1 + 1));
            }
            let q2 = skip_ws(json, q1 + 1, n);
            if q2 == n {
                proof {
                    assert(ws(json@.skip(q1 + 1)).len() == 0);
                    assert(gsnap_model(Seq::<(u64, GUser)>::empty()) =~= Map::<
                        u64,
                        UserModel,
                    >::empty());
                }
                return Ok(Users::empty());
            }
            return Ok(Users::empty());
        }
        proof {
            if q1 < n {
                assert(json@.skip(q1 as int)[0] == json@[q1 as int]);
            }
        }
        let mut store = Users::empty();
        let mut cur: usize = q0 + 1;
        let ghost mut done: GSnap = Seq::empty();
        proof {
            let pe = parse_users_entries(json@.skip(q0 + 1));
            if pe is Some {
                assert(done + pe->Some_0.0 =~= pe->Some_0.0);
            }
        }
        loop
            invariant
                n == json@.len(),
                q0 < n,
                q0 < cur <= n,
                store.wf(),
                store.model() == gsnap_model(done),
                gsnap_valid(done),
                parse_snapshot(json@) == match parse_users_entries(json@.skip(q0 + 1)) {
                    Some((es, rr)) => if ws(rr).len() == 0 {
                        Some::<GSnap>(es)
                    } else {
                        None::<GSnap>
                    },
                    None => None::<GSnap>,
                },
                parse_users_entries(json@.skip(q0 + 1)) == match parse_users_entries(
                    json@.skip(cur as int),
                ) {
                    Some((es, rr)) => Some::<(GSnap, Seq<char>)>((done + es, rr)),
                    None => None::<(GSnap, Seq<char>)>,
                },
            decreases n - cur,
        {
            let ghost tail = json@.skip(cur as int);
            let (id, p1) = match Self::parse_json_key(json, cur, n) {
                Some(kv) => kv,
                None => {
                    return Ok(Users::empty());
                },
            };
            let p1w = skip_ws(json, p1, n);
            if p1w == n || json.get_char(p1w) != ':' {
                proof {
                    if p1w < n {
                        assert(json@.skip(p1w as int)[0] == json@[p1w as int]);
                    }
                    assert(parse_users_entries(tail) is None);
                }
                return Ok(Users::empty());
            }
            proof {
                assert(json@.skip(p1w as int)[0] == json@[p1w as int]);
                assert(json@.skip(p1w as int).skip(1) =~= json@.skip(p1w + 1));
            }
            let ((ns, tb), p2) = match parse_json_user(json, p1w + 1, n) {
                Some(kv) => kv,
                None => {
                    proof {
                        assert(parse_users_entries(tail) is None);
                    }
                    return Ok(Users::empty());
                },
            };
            let ghost gu: GUser = (ns@, gtable_of(tb@));
            let ghost entry: (u64, GUser) = (id, gu);
            let user = match User::from_parts(ns, tb) {
                Some(u) => u,
                None => {
                    proof {
                        lemma_valid_bridge(gu.0, tb@);
                        assert(!guser_valid(gu));
                        if parse_users_entries(tail) is Some {
                            let full = parse_users_entries(json@.skip(q0 + 1))->Some_0.0;
                            let es = parse_users_entries(tail)->Some_0.0;
                            assert(es[0] == entry);
                            assert(full == done + es);
                            assert(full[done.len() as int] == entry);
                            assert(!gsnap_valid(full));
                        }
                    }
                    return Ok(Users::empty());
                },
            };
            proof {
                user.lemma_model_rep();
                lemma_valid_bridge(gu.0, user.alias@);
                lemma_gtmap_bridge(user.alias@);
                assert(guser_valid(gu));
                assert(user.model() == guser_model(gu));
            }
            let ghost store0 = store.model();
            store.add_user(id, user);
            proof {
                crate::table::lemma_pmap_push(
                    done,
                    |e: (u64, GUser)| e.0,
                    |e: (u64, GUser)| guser_model(e.1),
                    entry,
                );
                done = done.push(entry);
                assert(store.model() == gsnap_model(done));
                assert forall|x: int| 0 <= x < done.len() implies guser_valid(
                    (#[trigger] done[x]).1,
                ) by {
                    if x < done.len() - 1 {
                        assert(done[x] == done.drop_last()[x]);
                    }
                }
            }
            let p2w = skip_ws(json, p2, n);
            if p2w < n && json.get_char(p2w) == ',' {
                proof {
                    assert(json@.skip(p2w as int)[0] == json@[p2w as int]);
                    assert(json@.skip(p2w as int).skip(1) =~= json@.skip(p2w + 1));
                    assert(json@.skip(p2w + 1).len() < tail.len());
                    assert forall|es: GSnap| true implies done.drop_last() + (seq![entry] + es)
                        =~= done + es by {
                        assert(done.drop_last().push(entry) =~= done);
                    }
                }
                cur = p2w + 1;
            } else if p2w < n && json.get_char(p2w) == '}' {
                proof {
                    assert(json@.skip(p2w as int)[0] == json@[p2w as int]);
                    assert(json@.skip(p2w as int).skip(1) =~= json@.skip(p2w + 1));
                    assert(done.drop_last() + seq![entry] =~= done);
                }
                let p3 = skip_ws(json, p2w + 1, n);
                if p3 == n {
                    proof {
                        assert(ws(json@.skip(p2w + 1)).len() == 0);
                        assert(parse_snapshot(json@) == Some(done));
                    }
                    return Ok(store);
                }
                proof {
                    assert(ws(json@.skip(p2w + 1)).len() != 0);
                    assert(parse_snapshot(json@) is None);
                }
                return Ok(Users::empty());
            } else {
                proof {
                    if p2w < n {
                        assert(json@.skip(p2w as int)[0] == json@[p2w as int]);
                    }
                    assert(parse_users_entries(tail) is None);
                }
                return Ok(Users::empty());
            }
        }
    }

    /// Parses a store key starting at `pos`: a decimal identifier in quotes.
    fn parse_json_key(s: &str, pos: usize, n: usize) -> (r: Option<(u64, usize)>)
        requires
            n == s@.len(),
            pos <= n,
        ensures
            match r {
                Some((v, p)) => pos < p <= n && parse_key(s@.skip(pos as int)) == Some(
                    (v, s@.skip(p as int)),
                ),
                None => parse_key(s@.skip(pos as int)) is None,
            },
    {
        let q = skip_ws(s, pos, n);
        if q == n {
            return None;
        }
        proof {
            assert(s@.skip(q as int)[0] == s@[q as int]);
            assert(s@.skip(q as int).skip(1) =~= s@.skip(q + 1));
        }
        if s.get_char(q) != '"' {
            return None;
        }
        let (v, p) = match parse_json_u64(s, q + 1, n) {
            Some(kv) => kv,
            None => {
                return None;
            },
        };
        if p == n || s.get_char(p) != '"' {
            proof {
                if p < n {
                    assert(s@.skip(p as int)[0] == s@[p as int]);
                }
            }
            return None;
        }
        proof {
            assert(s@.skip(p as int)[0] == s@[p as int]);
            assert(s@.skip(p as int).skip(1) =~= s@.skip(p + 1));
        }
        Some((v, p + 1))
    }
}

/// The alias entries also split off their first entry.
#[verifier::rlimit(30)]
proof fn lemma_amap_entries_first(s: Seq<(String, String)>)
    requires
        s.len() > 0,
    ensures
        ser_amap_entries(s) == if s.len() == 1 {
            ser_amap_entry(s[0])
        } else {
            ser_amap_entry(s[0]) + seq![','] + ser_amap_entries(s.skip(1))
        },
    decreases s.len(),
{
    if s.len() == 1 {
    } else if s.len() == 2 {
        assert(s.drop_last()[0] == s[0]);
        assert(s.drop_last().len() == 1);
        assert(s.skip(1)[0] == s.last());
        assert(s.skip(1).len() == 1);
    } else {
        lemma_amap_entries_first(s.drop_last());
        assert(s.drop_last()[0] == s[0]);
        assert(s.drop_last().skip(1) =~= s.skip(1).drop_last());
        assert(s.skip(1).last() == s.last());
        assert(ser_amap_entries(s) == ser_amap_entries(s.drop_last()) + seq![','] + ser_amap_entry(s.last()));
        assert(ser_amap_entries(s.skip(1)) == ser_amap_entries(s.skip(1).drop_last()) + seq![','] + ser_amap_entry(
            s.skip(1).last(),
        ));
        assert((ser_amap_entry(s[0]) + seq![','] + ser_amap_entries(s.skip(1).drop_last()))
            + seq![','] + ser_amap_entry(s.last()) =~= ser_amap_entry(s[0]) + seq![','] + (
        ser_amap_entries(s.skip(1).drop_last()) + seq![','] + ser_amap_entry(s.last())));
    }
}

/// The table entries also split off their first entry.
#[verifier::rlimit(30)]
proof fn lemma_table_entries_first(s: Seq<(String, Vec<(String, String)>)>)
    requires
        s.len() > 0,
    ensures
        ser_table_entries(s) == if s.len() == 1 {
            ser_table_entry(s[0])
        } else {
            ser_table_entry(s[0]) + seq![','] + ser_table_entries(s.skip(1))
        },
    decreases s.len(),
{
    if s.len() == 1 {
    } else if s.len() == 2 {
        assert(s.drop_last()[0] == s[0]);
        assert(s.drop_last().len() == 1);
        assert(s.skip(1)[0] == s.last());
        assert(s.skip(1).len() == 1);
    } else {
        lemma_table_entries_first(s.drop_last());
        assert(s.drop_last()[0] == s[0]);
        assert(s.drop_last().skip(1) =~= s.skip(1).drop_last());
        assert(s.skip(1).last() == s.last());
        assert(ser_table_entries(s) == ser_table_entries(s.drop_last()) + seq![','] + ser_table_entry(s.last()));
        assert(ser_table_entries(s.skip(1)) == ser_table_entries(s.skip(1).drop_last()) + seq![','] + ser_table_entry(
            s.skip(1).last(),
        ));
        assert((ser_table_entry(s[0]) + seq![','] + ser_table_entries(s.skip(1).drop_last()))
            + seq![','] + ser_table_entry(s.last()) =~= ser_table_entry(s[0]) + seq![','] + (
        ser_table_entries(s.skip(1).drop_last()) + seq![','] + ser_table_entry(s.last())));
    }
}

/// The store entries also split off their first entry.
#[verifier::rlimit(50)]
proof fn lemma_users_entries_first(s: Seq<(u64, User)>)
    requires
        s.len() > 0,
    ensures
        ser_users_entries(s) == if s.len() == 1 {
            ser_users_entry(s[0])
        } else {
            ser_users_entry(s[0]) + seq![','] + ser_users_entries(s.skip(1))
        },
    decreases s.len(),
{
    if s.len() == 1 {
    } else if s.len() == 2 {
        assert(s.drop_last()[0] == s[0]);
        assert(s.drop_last().len() == 1);
        assert(s.skip(1)[0] == s.last());
        assert(s.skip(1).len() == 1);
    } else {
        lemma_users_entries_first(s.drop_last());
        assert(s.drop_last()[0] == s[0]);
        assert(s.drop_last().skip(1) =~= s.skip(1).drop_last());
        assert(s.skip(1).last() == s.last());
        assert(ser_users_entries(s) == ser_users_entries(s.drop_last()) + seq![',']
            + ser_users_entry(s.last()));
        assert(ser_users_entries(s.skip(1)) == ser_users_entries(s.skip(1).drop_last())
            + seq![','] + ser_users_entry(s.skip(1).last()));
        assert((ser_users_entry(s[0]) + seq![','] + ser_users_entries(s.skip(1).drop_last()))
            + seq![','] + ser_users_entry(s.last()) =~= ser_users_entry(s[0]) + seq![','] + (
        ser_users_entries(s.skip(1).drop_last()) + seq![','] + ser_users_entry(s.last())));
    }
}

/// Parsing serialized alias entries recovers them, over the closing brace.
#[verifier::rlimit(100)]
#[verifier::spinoff_prover]
proof fn lemma_parse_ser_amap_entries(pairs: Seq<(String, String)>, rest: Seq<char>)
    requires
        pairs.len() > 0,
    ensures
        parse_amap_entries(ser_amap_entries(pairs) + (seq!['}'] + rest)) == Some(
            (galias_of(pairs), rest),
        ),
    decreases pairs.len(),
{
    lemma_amap_entries_first(pairs);
    let e = pairs[0];
    let s = ser_amap_entries(pairs) + (seq!['}'] + rest);
    if pairs.len() == 1 {
        let r1 = seq![':'] + ser_string(e.1@) + (seq!['}'] + rest);
        assert(s =~= ser_string(e.0@) + r1);
        lemma_parse_ser_string(e.0@, r1);
        assert(parse_string(s) == Some((e.0@, r1)));
        assert(r1[0] == ':');
        let r1s = ser_string(e.1@) + (seq!['}'] + rest);
        assert(r1.skip(1) =~= r1s);
        lemma_parse_ser_string(e.1@, seq!['}'] + rest);
        let r2 = seq!['}'] + rest;
        assert(r2[0] == '}');
        assert(r2[0] != ',');
        assert(r2.skip(1) =~= rest);
        assert(galias_of(pairs) =~= seq![(e.0@, e.1@)]);
    } else {
        lemma_parse_ser_amap_entries(pairs.skip(1), rest);
        let tail2 = ser_amap_entries(pairs.skip(1)) + (seq!['}'] + rest);
        let r1 = seq![':'] + ser_string(e.1@) + (seq![','] + tail2);
        assert(s =~= ser_string(e.0@) + r1);
        lemma_parse_ser_string(e.0@, r1);
        assert(parse_string(s) == Some((e.0@, r1)));
        assert(r1[0] == ':');
        let r1s = ser_string(e.1@) + (seq![','] + tail2);
        assert(r1.skip(1) =~= r1s);
        lemma_parse_ser_string(e.1@, seq![','] + tail2);
        let r2 = seq![','] + tail2;
        assert(r2[0] == ',');
        assert(r2.skip(1) =~= tail2);
        assert(tail2.len() < s.len());
        assert(seq![(e.0@, e.1@)] + galias_of(pairs.skip(1)) =~= galias_of(pairs));
    }
}

/// Parsing a serialized alias map recovers it.
#[verifier::rlimit(50)]
proof fn lemma_parse_ser_amap(pairs: Seq<(String, String)>, rest: Seq<char>)
    ensures
        parse_amap(ser_amap(pairs) + rest) == Some((galias_of(pairs), rest)),
{
    let s = ser_amap(pairs) + rest;
    assert(s[0] == '{');
    if pairs.len() == 0 {
        assert(ser_amap_entries(pairs) =~= Seq::<char>::empty());
        assert(s =~= seq!['{', '}'] + rest);
        assert(s[1] == '}');
        assert(s.skip(2) =~= rest);
        assert(galias_of(pairs) =~= Seq::<(Seq<char>, Seq<char>)>::empty());
    } else {
        lemma_amap_entries_first(pairs);
        assert(ser_amap_entries(pairs).len() > 0);
        assert(ser_amap_entries(pairs)[0] == '"');
        assert(s[1] == '"');
        assert(s.skip(1) =~= ser_amap_entries(pairs) + (seq!['}'] + rest));
        lemma_parse_ser_amap_entries(pairs, rest);
    }
}

/// Parsing serialized table entries recovers them, over the closing brace.
#[verifier::rlimit(100)]
#[verifier::spinoff_prover]
proof fn lemma_parse_ser_table_entries(table: Seq<(String, Vec<(String, String)>)>, rest: Seq<char>)
    requires
        table.len() > 0,
    ensures
        parse_table_entries(ser_table_entries(table) + (seq!['}'] + rest)) == Some(
            (gtable_of(table), rest),
        ),
    decreases table.len(),
{
    lemma_table_entries_first(table);
    let e = table[0];
    let s = ser_table_entries(table) + (seq!['}'] + rest);
    if table.len() == 1 {
        let r1 = seq![':'] + ser_amap(e.1@) + (seq!['}'] + rest);
        assert(s =~= ser_string(e.0@) + r1);
        lemma_parse_ser_string(e.0@, r1);
        assert(parse_string(s) == Some((e.0@, r1)));
        assert(r1[0] == ':');
        let r1s = ser_amap(e.1@) + (seq!['}'] + rest);
        assert(r1.skip(1) =~= r1s);
        lemma_parse_ser_amap(e.1@, seq!['}'] + rest);
        let r2 = seq!['}'] + rest;
        assert(r2[0] == '}');
        assert(r2[0] != ',');
        assert(r2.skip(1) =~= rest);
        assert(gtable_of(table) =~= seq![(e.0@, galias_of(e.1@))]);
    } else {
        lemma_parse_ser_table_entries(table.skip(1), rest);
        let tail2 = ser_table_entries(table.skip(1)) + (seq!['}'] + rest);
        let r1 = seq![':'] + ser_amap(e.1@) + (seq![','] + tail2);
        assert(s =~= ser_string(e.0@) + r1);
        lemma_parse_ser_string(e.0@, r1);
        assert(parse_string(s) == Some((e.0@, r1)));
        assert(r1[0] == ':');
        let r1s = ser_amap(e.1@) + (seq![','] + tail2);
        assert(r1.skip(1) =~= r1s);
        lemma_parse_ser_amap(e.1@, seq![','] + tail2);
        let r2 = seq![','] + tail2;
        assert(r2[0] == ',');
        assert(r2.skip(1) =~= tail2);
        assert(tail2.len() < s.len());
        assert(seq![(e.0@, galias_of(e.1@))] + gtable_of(table.skip(1)) =~= gtable_of(table));
    }
}

/// Parsing a serialized table recovers it.
#[verifier::rlimit(50)]
proof fn lemma_parse_ser_table(table: Seq<(String, Vec<(String, String)>)>, rest: Seq<char>)
    ensures
        parse_table(ser_table(table) + rest) == Some((gtable_of(table), rest)),
{
    let s = ser_table(table) + rest;
    assert(s[0] == '{');
    if table.len() == 0 {
        assert(ser_table_entries(table) =~= Seq::<char>::empty());
        assert(s =~= seq!['{', '}'] + rest);
        assert(s[1] == '}');
        assert(s.skip(2) =~= rest);
        assert(gtable_of(table) =~= Seq::<(Seq<char>, GAlias)>::empty());
    } else {
        lemma_table_entries_first(table);
        assert(ser_table_entries(table).len() > 0);
        assert(ser_table_entries(table)[0] == '"');
        assert(s[1] == '"');
        assert(s.skip(1) =~= ser_table_entries(table) + (seq!['}'] + rest));
        lemma_parse_ser_table_entries(table, rest);
    }
}

/// Parsing a serialized user recovers it.
#[verifier::rlimit(100)]
#[verifier::spinoff_prover]
proof fn lemma_parse_ser_user(u: User, rest: Seq<char>)
    ensures
        parse_user(ser_user(u) + rest) == Some((guser_of(u), rest)),
{
    let s = ser_user(u) + rest;
    assert(s[0] == '{');
    let r1 = seq![':'] + ser_string(u.namespace@) + (seq![','] + ser_string("alias"@) + seq![':']
        + ser_table(u.alias@) + (seq!['}'] + rest));
    assert(s.skip(1) =~= ser_string("namespace"@) + r1);
    lemma_parse_ser_string("namespace"@, r1);
    assert(r1[0] == ':');
    let r1s = ser_string(u.namespace@) + (seq![','] + ser_string("alias"@) + seq![':'] + ser_table(
        u.alias@,
    ) + (seq!['}'] + rest));
    assert(r1.skip(1) =~= r1s);
    lemma_parse_ser_string(
        u.namespace@,
        seq![','] + ser_string("alias"@) + seq![':'] + ser_table(u.alias@) + (seq!['}'] + rest),
    );
    let r2 = seq![','] + ser_string("alias"@) + seq![':'] + ser_table(u.alias@) + (seq!['}']
        + rest);
    assert(r2[0] == ',');
    let r2s = ser_string("alias"@) + (seq![':'] + ser_table(u.alias@) + (seq!['}'] + rest));
    assert(r2.skip(1) =~= r2s);
    lemma_parse_ser_string(
        "alias"@,
        seq![':'] + ser_table(u.alias@) + (seq!['}'] + rest),
    );
    let r3 = seq![':'] + ser_table(u.alias@) + (seq!['}'] + rest);
    assert(r3[0] == ':');
    let r3s = ser_table(u.alias@) + (seq!['}'] + rest);
    assert(r3.skip(1) =~= r3s);
    lemma_parse_ser_table(u.alias@, seq!['}'] + rest);
    let r4 = seq!['}'] + rest;
    assert(r4[0] == '}');
    assert(r4.skip(1) =~= rest);
}

/// Parsing a serialized store key recovers it.
#[verifier::rlimit(30)]
proof fn lemma_parse_ser_key(id: u64, rest: Seq<char>)
    ensures
        parse_key(ser_key(id) + rest) == Some((id, rest)),
{
    let s = ser_key(id) + rest;
    assert(s[0] == '"');
    let r0 = seq!['"'] + rest;
    assert(s.skip(1) =~= dec_digits(id as int) + r0);
    assert(r0[0] == '"');
    assert(!is_dec(r0[0]));
    lemma_parse_ser_u64(id, r0);
    assert(r0.skip(1) =~= rest);
}

/// Parsing serialized store entries recovers them, over the closing brace.
#[verifier::rlimit(100)]
#[verifier::spinoff_prover]
proof fn lemma_parse_ser_users_entries(entries: Seq<(u64, User)>, rest: Seq<char>)
    requires
        entries.len() > 0,
    ensures
        parse_users_entries(ser_users_entries(entries) + (seq!['}'] + rest)) == Some(
            (gsnap_of(entries), rest),
        ),
    decreases entries.len(),
{
    lemma_users_entries_first(entries);
    let e = entries[0];
    let s = ser_users_entries(entries) + (seq!['}'] + rest);
    if entries.len() == 1 {
        let r1 = seq![':'] + ser_user(e.1) + (seq!['}'] + rest);
        assert(s =~= ser_key(e.0) + r1);
        lemma_parse_ser_key(e.0, r1);
        assert(parse_key(s) == Some((e.0, r1)));
        assert(r1[0] == ':');
        let r1s = ser_user(e.1) + (seq!['}'] + rest);
        assert(r1.skip(1) =~= r1s);
        lemma_parse_ser_user(e.1, seq!['}'] + rest);
        let r2 = seq!['}'] + rest;
        assert(r2[0] == '}');
        assert(r2[0] != ',');
        assert(r2.skip(1) =~= rest);
        assert(gsnap_of(entries) =~= seq![(e.0, guser_of(e.1))]);
    } else {
        lemma_parse_ser_users_entries(entries.skip(1), rest);
        let tail2 = ser_users_entries(entries.skip(1)) + (seq!['}'] + rest);
        let r1 = seq![':'] + ser_user(e.1) + (seq![','] + tail2);
        assert(s =~= ser_key(e.0) + r1);
        lemma_parse_ser_key(e.0, r1);
        assert(parse_key(s) == Some((e.0, r1)));
        assert(r1[0] == ':');
        let r1s = ser_user(e.1) + (seq![','] + tail2);
        assert(r1.skip(1) =~= r1s);
        lemma_parse_ser_user(e.1, seq![','] + tail2);
        let r2 = seq![','] + tail2;
        assert(r2[0] == ',');
        assert(r2.skip(1) =~= tail2);
        assert(tail2.len() < s.len());
        assert(seq![(e.0, guser_of(e.1))] + gsnap_of(entries.skip(1)) =~= gsnap_of(entries));
    }
}

/// A parsed snapshot view abstracts to the same store model as the entry
/// list it is the view of.
proof fn lemma_gsnap_model_bridge(v: Seq<(u64, User)>)
    ensures
        gsnap_model(gsnap_of(v)) == pmap(
            v,
            |e: (u64, User)| crate::users::u_key(e),
            |e: (u64, User)| crate::users::u_val(e),
        ),
    decreases v.len(),
{
    if v.len() == 0 {
        assert(gsnap_of(v) =~= Seq::<(u64, GUser)>::empty());
        assert(gsnap_model(gsnap_of(v)) =~= pmap(
            v,
            |e: (u64, User)| crate::users::u_key(e),
            |e: (u64, User)| crate::users::u_val(e),
        ));
    } else {
        lemma_gsnap_model_bridge(v.drop_last());
        assert(gsnap_of(v).drop_last() =~= gsnap_of(v.drop_last()));
        assert(gsnap_of(v).last() == (v.last().0, guser_of(v.last().1)));
        let e = v.last().1;
        e.lemma_model_rep();
        lemma_gtmap_bridge(e.alias@);
        assert(guser_model(guser_of(e)) == e.model());
        assert(gsnap_model(gsnap_of(v)) =~= pmap(
            v,
            |e: (u64, User)| crate::users::u_key(e),
            |e: (u64, User)| crate::users::u_val(e),
        ));
    }
}

/// Round trip: serializing a well-formed store and reconstructing from the
/// snapshot yields an equivalent store — the same user identifiers, and per
/// user the same active namespace and the same alias table.  Together with
/// the contracts of [`Users::to_json`] and [`Users::new`], this says that
/// `Users::new(&u.to_json())` recovers `u`'s whole abstract state.
#[verifier::rlimit(100)]
pub proof fn law_snapshot_round_trip(u: Users)
    requires
        u.wf(),
    ensures
        snapshot_model(snapshot_text(u)) == u.model(),
{
    let entries = u.users@;
    let text = snapshot_text(u);
    u.lemma_model_rep();
    if entries.len() == 0 {
        assert(ser_users_entries(entries) =~= Seq::<char>::empty());
        assert(text =~= seq!['{', '}']);
        assert(text.len() == 2 && text[0] == '{' && text[1] == '}');
        assert(parse_snapshot(text) == Some(Seq::<(u64, GUser)>::empty()));
        assert(gsnap_model(Seq::<(u64, GUser)>::empty()) =~= Map::<u64, UserModel>::empty());
        assert(u.model() =~= Map::<u64, UserModel>::empty());
    } else {
        lemma_users_entries_first(entries);
        assert(ser_users_entries(entries)[0] == '"');
        assert(text =~= seq!['{'] + ser_users_entries(entries) + seq!['}']);
        assert(text[0] == '{');
        assert(text[1] == '"');
        assert(text.skip(1) =~= ser_users_entries(entries) + (seq!['}'] + Seq::<char>::empty()));
        lemma_parse_ser_users_entries(entries, Seq::empty());
        assert(parse_users_entries(text.skip(1)) == Some(
            (gsnap_of(entries), Seq::<char>::empty()),
        ));
        assert(parse_snapshot(text) == Some(gsnap_of(entries)));
        assert(gsnap_valid(gsnap_of(entries))) by {
            assert forall|i: int| 0 <= i < gsnap_of(entries).len() implies guser_valid(
                (#[trigger] gsnap_of(entries)[i]).1,
            ) by {
                let e = entries[i].1;
                assert(e.wf());
                e.lemma_model_rep();
                lemma_valid_bridge(e.namespace@, e.alias@);
                assert(gsnap_of(entries)[i].1 == guser_of(e));
            }
        }
        lemma_gsnap_model_bridge(entries);
    }
}

} // verus!
