//! Timezone-stamp parsing: a time of day written `12h30m5s` and a date
//! written `31/12/2023`, with the timezone name resolved by an external
//! timezone database.
//!
//! The time pattern is anchored: optional hours (`1`-`9` or two digits up to
//! `23`) before `h`, optional minutes and seconds (one digit, or two digits
//! up to `59`) before `m` and `s`, an omitted group counting as zero.  The
//! date pattern is searched anywhere in its input: one or two digits, a
//! slash, one or two digits, a slash, then two to four digits ending at a
//! word boundary; a two- or three-digit year below 2000 is shifted into the
//! two-thousands.
//!
//! The word-boundary rule counts only ASCII digits, letters and underscore
//! as word characters, so a year followed directly by a letter outside
//! ASCII ends at a boundary here, where a Unicode-aware word-boundary rule
//! would read on.

use vstd::prelude::*;

use crate::snapshot::{digits_value, hex_val, is_dec};

verus! {

/// An error of the timezone-stamp parser.
#[derive(Debug, PartialEq, Eq)]
pub enum Error {
    TzParseFail(String),
    TimeParseFail(String),
    DateParseError(String),
}

/// The first position at or after `from` that does not hold a digit.
pub open spec fn digit_run(s: Seq<char>, from: int) -> int
    decreases s.len() - from,
    when 0 <= from <= s.len()
{
    if from >= s.len() {
        s.len() as int
    } else if !is_dec(s[from]) {
        from
    } else {
        digit_run(s, from + 1)
    }
}

/// The number a digit group stands for; an omitted group counts as zero.
pub open spec fn group_val(g: Seq<char>) -> int {
    if g.len() == 0 {
        0
    } else {
        digits_value(g, 0)
    }
}

/// An admissible hours group: omitted, a single digit `1`-`9`, or two digits
/// up to `23`.
pub open spec fn hour_group(g: Seq<char>) -> bool {
    ||| g.len() == 0
    ||| (g.len() == 1 && is_dec(g[0]) && g[0] != '0')
    ||| (g.len() == 2 && is_dec(g[0]) && is_dec(g[1]) && group_val(g) <= 23)
}

/// An admissible minutes or seconds group: omitted, one digit, or two digits
/// up to `59`.
pub open spec fn minsec_group(g: Seq<char>) -> bool {
    ||| g.len() == 0
    ||| (g.len() == 1 && is_dec(g[0]))
    ||| (g.len() == 2 && is_dec(g[0]) && is_dec(g[1]) && group_val(g) <= 59)
}

/// The hours, minutes and seconds of an anchored time stamp, when the whole
/// input is one.
pub open spec fn parse_time(s: Seq<char>) -> Option<(int, int, int)> {
    let i = digit_run(s, 0);
    if i < s.len() && s[i] == 'h' {
        let j = digit_run(s, i + 1);
        if j < s.len() && s[j] == 'm' {
            let k = digit_run(s, j + 1);
            if k == s.len() - 1 && s[k] == 's' {
                let hg = s.take(i);
                let mg = s.subrange(i + 1, j);
                let sg = s.subrange(j + 1, k);
                if hour_group(hg) && minsec_group(mg) && minsec_group(sg) {
                    Some((group_val(hg), group_val(mg), group_val(sg)))
                } else {
                    None
                }
            } else {
                None
            }
        } else {
            None
        }
    } else {
        None
    }
}

/// A digit run ends at the first non-digit.
proof fn lemma_digit_run_at(s: Seq<char>, from: int, to: int)
    requires
        0 <= from <= to <= s.len(),
        forall|x: int| from <= x < to ==> is_dec(#[trigger] s[x]),
        to < s.len() ==> !is_dec(s[to]),
    ensures
        digit_run(s, from) == to,
    decreases to - from,
{
    if from < to {
        assert(is_dec(s[from]));
        lemma_digit_run_at(s, from + 1, to);
    }
}

/// Reads the number in `s[from..to]`, a group of at most four digits.
fn group_value(s: &str, from: usize, to: usize, n: usize) -> (r: u32)
    requires
        n == s@.len(),
        from <= to <= n,
        to - from <= 4,
        forall|x: int| from <= x < to ==> is_dec(#[trigger] s@[x]),
    ensures
        r == group_val(s@.subrange(from as int, to as int)),
        r <= 9999,
{
    let ghost g = s@.subrange(from as int, to as int);
    if from == to {
        proof {
            assert(g.len() == 0);
        }
        return 0;
    }
    let mut acc: u32 = 0;
    let mut i: usize = from;
    proof {
        assert(forall|x: int| 0 <= x < g.len() ==> is_dec(#[trigger] g[x]));
        lemma_group_val_bound(g);
    }
    while i < to
        invariant
            n == s@.len(),
            from <= i <= to <= n,
            to - from <= 4,
            from < to,
            g == s@.subrange(from as int, to as int),
            forall|x: int| from <= x < to ==> is_dec(#[trigger] s@[x]),
            acc <= 9999,
            digits_value(g, 0) <= 9999,
            digits_value(g, 0) == digits_value(s@.subrange(i as int, to as int), acc as int),
        decreases to - i,
    {
        let c = s.get_char(i);
        let d: u32 = match crate::snapshot::dec_val_char(c) {
            Some(d) => d,
            None => {
                proof {
                    assert(is_dec(s@[i as int]));
                    assert(false);
                }
                0
            },
        };
        proof {
            let t = s@.subrange(i as int, to as int);
            assert(t[0] == s@[i as int]);
            assert(t.skip(1) =~= s@.subrange(i + 1, to as int));
            assert(digits_value(t, acc as int) == digits_value(
                s@.subrange(i + 1, to as int),
                acc as int * 10 + hex_val(t[0]),
            ));
            assert(forall|x: int|
                0 <= x < s@.subrange(i + 1, to as int).len() ==> is_dec(
                    #[trigger] s@.subrange(i + 1, to as int)[x],
                ));
            lemma_digits_value_bound(s@.subrange(i + 1, to as int), acc as int * 10 + hex_val(t[0]));
            assert(acc as int * 10 + hex_val(t[0]) <= 9999);
        }
        acc = acc * 10 + d;
        i += 1;
    }
    proof {
        assert(s@.subrange(to as int, to as int).len() == 0);
    }
    acc
}

/// A group of at most four digits reads below ten thousand.
proof fn lemma_group_val_bound(g: Seq<char>)
    requires
        g.len() <= 4,
        forall|x: int| 0 <= x < g.len() ==> is_dec(#[trigger] g[x]),
    ensures
        0 <= group_val(g) <= 9999,
{
    lemma_digits_value_bound(g, 0);
}

/// Reading digits onto a small accumulator stays within range.
proof fn lemma_digits_value_bound(g: Seq<char>, acc: int)
    requires
        0 <= acc,
        forall|x: int| 0 <= x < g.len() ==> is_dec(#[trigger] g[x]),
    ensures
        acc <= digits_value(g, acc),
        g.len() <= 4 && acc == 0 ==> digits_value(g, acc) <= 9999,
        g.len() <= 3 && acc <= 9 ==> digits_value(g, acc) <= 9999,
        g.len() <= 2 && acc <= 99 ==> digits_value(g, acc) <= 9999,
        g.len() <= 1 && acc <= 999 ==> digits_value(g, acc) <= 9999,
        g.len() == 0 ==> digits_value(g, acc) == acc,
    decreases g.len(),
{
    if g.len() > 0 {
        assert(is_dec(g[0]));
        lemma_digits_value_bound(g.skip(1), acc * 10 + hex_val(g[0]));
    }
}

/// Scans the digit run beginning at `from`.
fn scan_digits(s: &str, from: usize, n: usize) -> (r: usize)
    requires
        n == s@.len(),
        from <= n,
    ensures
        from <= r <= n,
        r == digit_run(s@, from as int),
        forall|x: int| from <= x < r ==> is_dec(#[trigger] s@[x]),
{
    let mut i: usize = from;
    while i < n && crate::snapshot::dec_val_char(s.get_char(i)).is_some()
        invariant
            n == s@.len(),
            from <= i <= n,
            forall|x: int| from <= x < i ==> is_dec(#[trigger] s@[x]),
        decreases n - i,
    {
        i += 1;
    }
    proof {
        lemma_digit_run_at(s@, from as int, i as int);
    }
    i
}

/// Parses an anchored time stamp `XhYmZs` into hours, minutes and seconds.
pub fn hms(s: &str) -> (r: Result<(u32, u32, u32), Error>)
    ensures
        match r {
            Ok((h, m, sec)) => parse_time(s@) == Some((h as int, m as int, sec as int)),
            Err(e) => parse_time(s@) is None && (e matches Error::TimeParseFail(t) && t@ == s@),
        },
{
    let n = s.unicode_len();
    let i = scan_digits(s, 0, n);
    if i == n || s.get_char(i) != 'h' {
        return Err(Error::TimeParseFail(s.to_owned()));
    }
    let j = scan_digits(s, i + 1, n);
    if j == n || s.get_char(j) != 'm' {
        return Err(Error::TimeParseFail(s.to_owned()));
    }
    let k = scan_digits(s, j + 1, n);
    if k != n - 1 || s.get_char(k) != 's' {
        return Err(Error::TimeParseFail(s.to_owned()));
    }
    let hlen = i;
    let mlen = j - (i + 1);
    let slen = k - (j + 1);
    let hour_ok = if hlen == 0 {
        true
    } else if hlen == 1 {
        s.get_char(0) != '0'
    } else if hlen == 2 {
        group_value(s, 0, i, n) <= 23
    } else {
        false
    };
    let min_ok = mlen <= 1 || (mlen == 2 && group_value(s, i + 1, j, n) <= 59);
    let sec_ok = slen <= 1 || (slen == 2 && group_value(s, j + 1, k, n) <= 59);
    proof {
        assert(s@.take(i as int) =~= s@.subrange(0, i as int));
    }
    if !(hour_ok && min_ok && sec_ok) {
        return Err(Error::TimeParseFail(s.to_owned()));
    }
    let h = group_value(s, 0, i, n);
    let m = group_value(s, i + 1, j, n);
    let sec = group_value(s, j + 1, k, n);
    Ok((h, m, sec))
}

/// Whether `c` belongs to a word for the word-boundary rule: ASCII digits,
/// letters and underscore only (see the module note on the divergence from a
/// Unicode-aware boundary).
pub open spec fn is_word_char(c: char) -> bool {
    let u = c as u32;
    ||| is_dec(c)
    ||| (97 <= u && u <= 122)
    ||| (65 <= u && u <= 90)
    ||| u == 95
}

/// Decides [`is_word_char`].
fn word_char(c: char) -> (r: bool)
    ensures
        r == is_word_char(c),
{
    let u = c as u32;
    crate::snapshot::dec_val_char(c).is_some() || (97 <= u && u <= 122) || (65 <= u && u <= 90) || u
        == 95
}

/// Whether a word boundary stands at position `q`.
pub open spec fn boundary(s: Seq<char>, q: int) -> bool {
    q == s.len() || !is_word_char(s[q])
}

/// Length of a one-or-two-digit group at `p` that a slash follows, or zero.
pub open spec fn slash_group(s: Seq<char>, p: int) -> int {
    if p + 2 < s.len() && is_dec(s[p]) && is_dec(s[p + 1]) && s[p + 2] == '/' {
        2
    } else if p + 1 < s.len() && is_dec(s[p]) && s[p + 1] == '/' {
        1
    } else {
        0
    }
}

/// Length of a two-to-four-digit year group at `p` that ends at a word
/// boundary, longest first, or zero.
pub open spec fn year_group(s: Seq<char>, p: int) -> int {
    if p + 3 < s.len() && is_dec(s[p]) && is_dec(s[p + 1]) && is_dec(s[p + 2]) && is_dec(s[p + 3])
        && boundary(s, p + 4) {
        4
    } else if p + 2 < s.len() && is_dec(s[p]) && is_dec(s[p + 1]) && is_dec(s[p + 2]) && boundary(
        s,
        p + 3,
    ) {
        3
    } else if p + 1 < s.len() && is_dec(s[p]) && is_dec(s[p + 1]) && boundary(s, p + 2) {
        2
    } else {
        0
    }
}

/// The day, month and raw year of a date stamp matching at position `p`.
pub open spec fn date_match_at(s: Seq<char>, p: int) -> Option<(int, int, int)> {
    let l1 = slash_group(s, p);
    if l1 > 0 {
        let p2 = p + l1 + 1;
        let l2 = slash_group(s, p2);
        if l2 > 0 {
            let p3 = p2 + l2 + 1;
            let ly = year_group(s, p3);
            if ly > 0 {
                Some(
                    (
                        group_val(s.subrange(p, p + l1)),
                        group_val(s.subrange(p2, p2 + l2)),
                        group_val(s.subrange(p3, p3 + ly)),
                    ),
                )
            } else {
                None
            }
        } else {
            None
        }
    } else {
        None
    }
}

/// The leftmost date-stamp match at or after position `p`.
pub open spec fn date_search(s: Seq<char>, p: int) -> Option<(int, int, int)>
    decreases s.len() - p,
    when 0 <= p <= s.len()
{
    if p >= s.len() {
        None
    } else {
        match date_match_at(s, p) {
            Some(r) => Some(r),
            None => date_search(s, p + 1),
        }
    }
}

/// Tries a date-stamp match at position `p`.
fn try_date_at(s: &str, p: usize, n: usize) -> (r: Option<(u32, u32, u32)>)
    requires
        n == s@.len(),
        p < n,
    ensures
        match r {
            Some((d, m, y)) => date_match_at(s@, p as int) == Some((d as int, m as int, y as int))
                && d <= 9999 && m <= 9999 && y <= 9999,
            None => date_match_at(s@, p as int) is None,
        },
{
    let l1 = if n - p > 2 && crate::snapshot::dec_val_char(s.get_char(p)).is_some()
        && crate::snapshot::dec_val_char(s.get_char(p + 1)).is_some() && s.get_char(p + 2) == '/' {
        2
    } else if n - p > 1 && crate::snapshot::dec_val_char(s.get_char(p)).is_some() && s.get_char(p + 1)
        == '/' {
        1
    } else {
        return None;
    };
    let p2 = p + l1 + 1;
    let l2 = if n - p2 > 2 && crate::snapshot::dec_val_char(s.get_char(p2)).is_some()
        && crate::snapshot::dec_val_char(s.get_char(p2 + 1)).is_some() && s.get_char(p2 + 2) == '/' {
        2
    } else if n - p2 > 1 && crate::snapshot::dec_val_char(s.get_char(p2)).is_some() && s.get_char(
        p2 + 1,
    ) == '/' {
        1
    } else {
        return None;
    };
    let p3 = p2 + l2 + 1;
    let ly = if n - p3 > 3 && crate::snapshot::dec_val_char(s.get_char(p3)).is_some()
        && crate::snapshot::dec_val_char(s.get_char(p3 + 1)).is_some() && crate::snapshot::dec_val_char(
        s.get_char(p3 + 2),
    ).is_some() && crate::snapshot::dec_val_char(s.get_char(p3 + 3)).is_some() && (p3 + 4 == n
        || !word_char(s.get_char(p3 + 4))) {
        4
    } else if n - p3 > 2 && crate::snapshot::dec_val_char(s.get_char(p3)).is_some()
        && crate::snapshot::dec_val_char(s.get_char(p3 + 1)).is_some() && crate::snapshot::dec_val_char(
        s.get_char(p3 + 2),
    ).is_some() && (p3 + 3 == n || !word_char(s.get_char(p3 + 3))) {
        3
    } else if n - p3 > 1 && crate::snapshot::dec_val_char(s.get_char(p3)).is_some()
        && crate::snapshot::dec_val_char(s.get_char(p3 + 1)).is_some() && (p3 + 2 == n || !word_char(
        s.get_char(p3 + 2),
    )) {
        2
    } else {
        return None;
    };
    let d = group_value(s, p, p + l1, n);
    let m = group_value(s, p2, p2 + l2, n);
    let y = group_value(s, p3, p3 + ly, n);
    Some((d, m, y))
}

/// Finds the leftmost date stamp `D/M/Y` in `s` and returns its day, month
/// and year, a year below 2000 shifted into the two-thousands.
pub fn dmy(s: &str) -> (r: Result<(u32, u32, i32), Error>)
    ensures
        match r {
            Ok((d, m, y)) => {
                &&& date_search(s@, 0) matches Some(g)
                &&& d == g.0
                &&& m == g.1
                &&& y == if g.2 < 2000 {
                    g.2 + 2000
                } else {
                    g.2
                }
            },
            Err(e) => date_search(s@, 0) is None && (e matches Error::DateParseError(t) && t@ == s@),
        },
{
    let n = s.unicode_len();
    let mut p: usize = 0;
    while p < n
        invariant
            n == s@.len(),
            0 <= p <= n,
            date_search(s@, 0) == date_search(s@, p as int),
        decreases n - p,
    {
        match try_date_at(s, p, n) {
            Some((d, m, yraw)) => {
                let y: i32 = if yraw < 2000 {
                    (yraw + 2000) as i32
                } else {
                    yraw as i32
                };
                return Ok((d, m, y));
            },
            None => {},
        }
        p += 1;
    }
    Err(Error::DateParseError(s.to_owned()))
}

/// The timezone type of the external timezone database, carried through
/// opaquely.
#[verifier::external_type_specification]
#[verifier::external_body]
pub struct ExTz(chrono_tz::Tz);

/// Whether the timezone database resolves a name: the lookup is a static
/// table lookup, a function of the name alone.
pub uninterp spec fn tz_name_resolves(name: Seq<char>) -> bool;

/// Relies on chrono_tz: `Tz::from_str` looks a name up in the bundled IANA
/// timezone table, a static lookup decided by the name alone.
#[verifier::external_body]
fn lookup_timezone(name: &str) -> (r: Option<chrono_tz::Tz>)
    ensures
        r is Some == tz_name_resolves(name@),
{
    name.parse::<chrono_tz::Tz>().ok()
}

/// Parses a timezone name, a date stamp and a time stamp together.
///
/// The date and time components are pinned by [`date_search`] and
/// [`parse_time`]; the timezone name resolves or not as the external
/// timezone database decides ([`tz_name_resolves`]), and each error comes
/// exactly when its component is the first, in timezone-date-time order, to
/// fail.
pub fn parse_tz_date_time(timezone: &str, dmy_s: &str, hms_s: &str) -> (r: Result<
    (chrono_tz::Tz, (u32, u32, i32), (u32, u32, u32)),
    Error,
>)
    ensures
        r is Ok <==> tz_name_resolves(timezone@) && date_search(dmy_s@, 0) is Some && parse_time(
            hms_s@,
        ) is Some,
        match r {
            Ok((_, date, time)) => {
                &&& date_search(dmy_s@, 0) matches Some(g) && date.0 == g.0 && date.1 == g.1
                    && date.2 == (if g.2 < 2000 {
                    g.2 + 2000
                } else {
                    g.2
                })
                &&& parse_time(hms_s@) == Some(
                    (time.0 as int, time.1 as int, time.2 as int),
                )
            },
            Err(e) => match e {
                Error::TzParseFail(t) => t@ == timezone@ && !tz_name_resolves(timezone@),
                Error::DateParseError(t) => {
                    &&& t@ == dmy_s@
                    &&& tz_name_resolves(timezone@)
                    &&& date_search(dmy_s@, 0) is None
                },
                Error::TimeParseFail(t) => {
                    &&& t@ == hms_s@
                    &&& tz_name_resolves(timezone@)
                    &&& date_search(dmy_s@, 0) is Some
                    &&& parse_time(hms_s@) is None
                },
            },
        },
{
    let tz = match lookup_timezone(timezone) {
        Some(tz) => tz,
        None => {
            return Err(Error::TzParseFail(timezone.to_owned()));
        },
    };
    let date = match dmy(dmy_s) {
        Ok(date) => date,
        Err(e) => {
            return Err(e);
        },
    };
    let time = match hms(hms_s) {
        Ok(time) => time,
        Err(e) => {
            return Err(e);
        },
    };
    Ok((tz, date, time))
}

} // verus!
