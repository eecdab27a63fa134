//! The expression-resolution pipeline.
//!
//! A raw input string is rewritten by substituting every alias token of the
//! active namespace with its replacement text, then split on `,` into
//! trimmed, non-empty sub-expressions, each meant for independent evaluation.
//! Rolled-result text is sanitized by stripping the emphasis characters `*`
//! and `` ` ``.  All transformations are total: no input fails.

use vstd::prelude::*;

verus! {

/// Whether `c` is whitespace, by the Unicode White_Space property that
/// `str::trim` strips.
pub open spec fn is_space(c: char) -> bool {
    let u = c as u32;
    ||| u == 9
    ||| u == 10
    ||| u == 11
    ||| u == 12
    ||| u == 13
    ||| u == 32
    ||| u == 0x85
    ||| u == 0xA0
    ||| u == 0x1680
    ||| (0x2000 <= u && u <= 0x200A)
    ||| u == 0x2028
    ||| u == 0x2029
    ||| u == 0x202F
    ||| u == 0x205F
    ||| u == 0x3000
}

/// Decides [`is_space`].
fn is_space_char(c: char) -> (r: bool)
    ensures
        r == is_space(c),
{
    let u = c as u32;
    u == 9 || u == 10 || u == 11 || u == 12 || u == 13 || u == 32 || u == 0x85 || u == 0xA0 || u
        == 0x1680 || (0x2000 <= u && u <= 0x200A) || u == 0x2028 || u == 0x2029 || u == 0x202F || u
        == 0x205F || u == 0x3000
}

/// `s` without its leading whitespace.
pub open spec fn trim_front(s: Seq<char>) -> Seq<char>
    decreases s.len(),
{
    if s.len() > 0 && is_space(s[0]) {
        trim_front(s.skip(1))
    } else {
        s
    }
}

/// `s` without its trailing whitespace.
pub open spec fn trim_back(s: Seq<char>) -> Seq<char>
    decreases s.len(),
{
    if s.len() > 0 && is_space(s.last()) {
        trim_back(s.drop_last())
    } else {
        s
    }
}

/// `s` without leading and trailing whitespace.
pub open spec fn trim_spec(s: Seq<char>) -> Seq<char> {
    trim_back(trim_front(s))
}

/// If everything before `lo` is whitespace and `lo` is not (or is the end),
/// trimming the front drops exactly `lo` characters.
proof fn lemma_trim_front_skip(s: Seq<char>, lo: int)
    requires
        0 <= lo <= s.len(),
        forall|x: int| 0 <= x < lo ==> is_space(#[trigger] s[x]),
        lo < s.len() ==> !is_space(s[lo]),
    ensures
        trim_front(s) == s.skip(lo),
    decreases lo,
{
    if lo == 0 {
        assert(s.skip(0) =~= s);
    } else {
        assert(is_space(s[0]));
        lemma_trim_front_skip(s.skip(1), lo - 1);
        assert(s.skip(1).skip(lo - 1) =~= s.skip(lo));
    }
}

/// If everything from `hi` on is whitespace and `hi - 1` is not (or `hi` is
/// zero), trimming the back keeps exactly the first `hi` characters.
proof fn lemma_trim_back_take(s: Seq<char>, hi: int)
    requires
        0 <= hi <= s.len(),
        forall|x: int| hi <= x < s.len() ==> is_space(#[trigger] s[x]),
        hi > 0 ==> !is_space(s[hi - 1]),
    ensures
        trim_back(s) == s.take(hi),
    decreases s.len() - hi,
{
    if hi == s.len() {
        assert(s.take(hi) =~= s);
    } else {
        assert(is_space(s.last()));
        lemma_trim_back_take(s.drop_last(), hi);
        assert(s.drop_last().take(hi) =~= s.take(hi));
    }
}

/// Returns `s` with leading and trailing whitespace removed.
fn trim_str<'a>(s: &'a str) -> (r: &'a str)
    ensures
        r@ == trim_spec(s@),
{
    let n = s.unicode_len();
    let mut lo: usize = 0;
    while lo < n && is_space_char(s.get_char(lo))
        invariant
            n == s@.len(),
            0 <= lo <= n,
            forall|x: int| 0 <= x < lo ==> is_space(#[trigger] s@[x]),
        decreases n - lo,
    {
        lo += 1;
    }
    let mut hi: usize = n;
    while hi > lo && is_space_char(s.get_char(hi - 1))
        invariant
            n == s@.len(),
            0 <= lo <= hi <= n,
            forall|x: int| 0 <= x < lo ==> is_space(#[trigger] s@[x]),
            lo < n ==> !is_space(s@[lo as int]),
            forall|x: int| hi <= x < n ==> is_space(#[trigger] s@[x]),
        decreases hi,
    {
        hi -= 1;
    }
    proof {
        lemma_trim_front_skip(s@, lo as int);
        if hi == lo {
            assert(trim_back(s@.skip(lo as int)) =~= s@.subrange(lo as int, hi as int)) by {
                lemma_trim_back_take(s@.skip(lo as int), 0);
                assert(s@.skip(lo as int).take(0) =~= s@.subrange(lo as int, lo as int));
            }
        } else {
            lemma_trim_back_take(s@.skip(lo as int), hi - lo);
            assert(s@.skip(lo as int).take(hi - lo) =~= s@.subrange(lo as int, hi as int));
        }
    }
    s.substring_char(lo, hi)
}

/// Whether `c` survives sanitization.
pub open spec fn keeps(c: char) -> bool {
    c != '*' && c != '`'
}

/// `s` with every `*` and `` ` `` removed.
pub open spec fn strip_marks(s: Seq<char>) -> Seq<char>
    decreases s.len(),
{
    if s.len() == 0 {
        Seq::empty()
    } else if keeps(s.last()) {
        strip_marks(s.drop_last()).push(s.last())
    } else {
        strip_marks(s.drop_last())
    }
}

/// Sanitized text holds no `*` and no `` ` ``.
pub proof fn lemma_strip_marks_clean(s: Seq<char>)
    ensures
        forall|i: int| 0 <= i < strip_marks(s).len() ==> keeps(#[trigger] strip_marks(s)[i]),
    decreases s.len(),
{
    if s.len() > 0 {
        lemma_strip_marks_clean(s.drop_last());
        let t = strip_marks(s.drop_last());
        if keeps(s.last()) {
            assert forall|i: int| 0 <= i < strip_marks(s).len() implies keeps(
                #[trigger] strip_marks(s)[i],
            ) by {
                if i < t.len() {
                    assert(strip_marks(s)[i] == t[i]);
                } else {
                    assert(strip_marks(s)[i] == s.last());
                }
            }
        }
    }
}

/// Sanitization is idempotent: stripping already-stripped text changes
/// nothing.
pub proof fn lemma_strip_marks_idempotent(s: Seq<char>)
    ensures
        strip_marks(strip_marks(s)) == strip_marks(s),
    decreases s.len(),
{
    if s.len() > 0 {
        lemma_strip_marks_idempotent(s.drop_last());
        if keeps(s.last()) {
            let t = strip_marks(s.drop_last());
            assert(t.push(s.last()).drop_last() =~= t);
        }
    }
}

/// Removes all asterisks and backticks from the string.
pub fn normalize_dice_expr(s: &str) -> (r: String)
    ensures
        r@ == strip_marks(s@),
{
    let n = s.unicode_len();
    let mut out = String::new();
    let mut i: usize = 0;
    while i < n
        invariant
            n == s@.len(),
            0 <= i <= n,
            out@ == strip_marks(s@.take(i as int)),
        decreases n - i,
    {
        let c = s.get_char(i);
        if c != '*' && c != '`' {
            out.append(s.substring_char(i, i + 1));
        }
        i += 1;
        proof {
            let t = s@.take(i as int);
            assert(t.drop_last() =~= s@.take(i - 1));
            assert(t.last() == s@[i - 1]);
            assert(s@.subrange(i - 1, i as int) =~= seq![s@[i - 1]]);
            assert(strip_marks(s@.take(i - 1)).push(s@[i - 1]) =~= strip_marks(s@.take(i - 1))
                + seq![s@[i - 1]]);
        }
    }
    proof {
        assert(s@.take(n as int) =~= s@);
    }
    out
}

/// Index of the first `,` in `s`, or `-1` when there is none.
pub open spec fn first_comma(s: Seq<char>) -> int
    decreases s.len(),
{
    if s.len() == 0 {
        -1
    } else if s[0] == ',' {
        0
    } else {
        let r = first_comma(s.skip(1));
        if r < 0 {
            -1
        } else {
            r + 1
        }
    }
}

/// `first_comma` finds the comma that follows a comma-free prefix, and
/// reports `-1` on a comma-free sequence.
proof fn lemma_first_comma_at(s: Seq<char>, m: int)
    requires
        0 <= m <= s.len(),
        forall|x: int| 0 <= x < m ==> #[trigger] s[x] != ',',
        m < s.len() ==> s[m] == ',',
    ensures
        first_comma(s) == if m < s.len() {
            m
        } else {
            -1int
        },
    decreases m,
{
    if m == 0 {
    } else {
        lemma_first_comma_at(s.skip(1), m - 1);
        assert forall|x: int| 0 <= x < m - 1 implies #[trigger] s.skip(1)[x] != ',' by {
            assert(s[x + 1] != ',');
        }
    }
}

/// The raw comma-separated segments of `s`, in order; a sequence without a
/// comma is one segment, possibly empty.
pub open spec fn split_commas(s: Seq<char>) -> Seq<Seq<char>>
    decreases s.len(),
{
    let i = first_comma(s);
    if 0 <= i < s.len() {
        seq![s.take(i)] + split_commas(s.skip(i + 1))
    } else {
        seq![s]
    }
}

/// Trims each raw segment and drops the ones that are empty after trimming,
/// keeping the order.
pub open spec fn clean_segments(segs: Seq<Seq<char>>) -> Seq<Seq<char>>
    decreases segs.len(),
{
    if segs.len() == 0 {
        Seq::empty()
    } else {
        let rest = clean_segments(segs.drop_last());
        let t = trim_spec(segs.last());
        if t.len() == 0 {
            rest
        } else {
            rest.push(t)
        }
    }
}

/// The sub-expressions of `s`: split on `,`, trimmed, empties dropped.
pub open spec fn split_dice_spec(s: Seq<char>) -> Seq<Seq<char>> {
    clean_segments(split_commas(s))
}

/// Every sub-expression is non-empty and free of surrounding whitespace.
pub proof fn lemma_split_dice_nonempty(s: Seq<char>)
    ensures
        forall|x: int|
            0 <= x < split_dice_spec(s).len() ==> (#[trigger] split_dice_spec(s)[x]).len() > 0,
{
    lemma_clean_segments_nonempty(split_commas(s));
}

proof fn lemma_clean_segments_nonempty(segs: Seq<Seq<char>>)
    ensures
        forall|x: int|
            0 <= x < clean_segments(segs).len() ==> (#[trigger] clean_segments(segs)[x]).len() > 0,
    decreases segs.len(),
{
    if segs.len() > 0 {
        lemma_clean_segments_nonempty(segs.drop_last());
        let rest = clean_segments(segs.drop_last());
        let t = trim_spec(segs.last());
        if t.len() != 0 {
            assert forall|x: int| 0 <= x < clean_segments(segs).len() implies (
            #[trigger] clean_segments(segs)[x]).len() > 0 by {
                if x < rest.len() {
                    assert(clean_segments(segs)[x] == rest[x]);
                } else {
                    assert(clean_segments(segs)[x] == t);
                }
            }
        }
    }
}

/// Splits a dice string on commas into trimmed, non-empty sub-expressions.
pub fn split_dice<'a>(expr: &'a str) -> (r: Vec<&'a str>)
    ensures
        r@.map_values(|t: &str| t@) == split_dice_spec(expr@),
        forall|x: int| 0 <= x < r@.len() ==> (#[trigger] r@[x])@.len() > 0,
{
    let n = expr.unicode_len();
    let mut out: Vec<&'a str> = Vec::new();
    let ghost mut raw: Seq<Seq<char>> = Seq::empty();
    let mut start: usize = 0;
    let mut i: usize = 0;
    proof {
        assert(expr@.skip(0) =~= expr@);
        assert(Seq::<Seq<char>>::empty() + split_commas(expr@) =~= split_commas(expr@));
        assert(out@.map_values(|t: &str| t@) =~= Seq::<Seq<char>>::empty());
    }
    while i < n
        invariant
            n == expr@.len(),
            0 <= start <= i <= n,
            forall|x: int| start <= x < i ==> #[trigger] expr@[x] != ',',
            split_commas(expr@) == raw + split_commas(expr@.skip(start as int)),
            out@.map_values(|t: &str| t@) == clean_segments(raw),
            forall|x: int| 0 <= x < out@.len() ==> (#[trigger] out@[x])@.len() > 0,
        decreases n - i,
    {
        if expr.get_char(i) == ',' {
            let ghost seg_raw = expr@.subrange(start as int, i as int);
            let seg = trim_str(expr.substring_char(start, i));
            proof {
                let tail = expr@.skip(start as int);
                assert forall|x: int| 0 <= x < i - start implies #[trigger] tail[x] != ',' by {
                    assert(expr@[start + x] != ',');
                }
                lemma_first_comma_at(tail, i - start);
                assert(tail.take(i - start) =~= seg_raw);
                assert(tail.skip(i - start + 1) =~= expr@.skip(i + 1));
                assert(raw + (seq![seg_raw] + split_commas(expr@.skip(i + 1))) =~= raw.push(
                    seg_raw,
                ) + split_commas(expr@.skip(i + 1)));
                assert(raw.push(seg_raw).drop_last() =~= raw);
            }
            let ghost old_out = out@;
            if !seg.is_empty() {
                out.push(seg);
                proof {
                    assert(out@.map_values(|t: &str| t@) =~= old_out.map_values(
                        |t: &str| t@,
                    ).push(seg@));
                }
            }
            proof {
                raw = raw.push(seg_raw);
                assert(out@.map_values(|t: &str| t@) == clean_segments(raw));
            }
            start = i + 1;
        }
        i += 1;
    }
    let ghost seg_raw = expr@.subrange(start as int, n as int);
    let seg = trim_str(expr.substring_char(start, n));
    proof {
        let tail = expr@.skip(start as int);
        assert forall|x: int| 0 <= x < n - start implies #[trigger] tail[x] != ',' by {
            assert(expr@[start + x] != ',');
        }
        lemma_first_comma_at(tail, n - start);
        assert(split_commas(tail) =~= seq![tail]);
        assert(tail =~= seg_raw);
        assert(split_commas(expr@) =~= raw.push(seg_raw));
        assert(raw.push(seg_raw).drop_last() =~= raw);
    }
    let ghost old_out = out@;
    if !seg.is_empty() {
        out.push(seg);
        proof {
            assert(out@.map_values(|t: &str| t@) =~= old_out.map_values(|t: &str| t@).push(seg@));
        }
    }
    proof {
        assert(out@.map_values(|t: &str| t@) == clean_segments(raw.push(seg_raw)));
    }
    out
}

/// `s` with every non-overlapping occurrence of `pat` replaced by `to`,
/// scanning left to right.  An empty pattern replaces nothing; the store
/// never hands out an empty alias token.
pub open spec fn replace_all(s: Seq<char>, pat: Seq<char>, to: Seq<char>) -> Seq<char>
    decreases s.len(),
{
    if pat.len() == 0 || s.len() < pat.len() {
        s
    } else if s.take(pat.len() as int) == pat {
        to + replace_all(s.skip(pat.len() as int), pat, to)
    } else {
        seq![s[0]] + replace_all(s.skip(1), pat, to)
    }
}

/// Whether `pat` occurs in `s` at position `i`.
fn match_at(s: &str, pat: &str, i: usize, m: usize, n: usize) -> (r: bool)
    requires
        m == pat@.len(),
        n == s@.len(),
        i + m <= n,
    ensures
        r == (s@.subrange(i as int, i + pat@.len()) == pat@),
{
    let mut j: usize = 0;
    while j < m
        invariant
            m == pat@.len(),
            n == s@.len(),
            i + m <= n,
            0 <= j <= m,
            forall|x: int| 0 <= x < j ==> s@[i + x] == pat@[x],
        decreases m - j,
    {
        if s.get_char(i + j) != pat.get_char(j) {
            proof {
                assert(s@.subrange(i as int, i + pat@.len())[j as int] != pat@[j as int]);
            }
            return false;
        }
        j += 1;
    }
    proof {
        assert(s@.subrange(i as int, i + pat@.len()) =~= pat@);
    }
    true
}

/// Replaces every occurrence of the literal token `pat` in `s` by `to`.
pub fn replace_alias(s: &str, pat: &str, to: &str) -> (r: String)
    ensures
        r@ == replace_all(s@, pat@, to@),
{
    let n = s.unicode_len();
    let m = pat.unicode_len();
    if m == 0 {
        return s.to_owned();
    }
    let mut out = String::new();
    let mut i: usize = 0;
    proof {
        assert(s@.skip(0) =~= s@);
        assert(Seq::<char>::empty() + replace_all(s@, pat@, to@) =~= replace_all(s@, pat@, to@));
    }
    while i < n
        invariant
            n == s@.len(),
            m == pat@.len(),
            m >= 1,
            0 <= i <= n,
            replace_all(s@, pat@, to@) == out@ + replace_all(s@.skip(i as int), pat@, to@),
        decreases n - i,
    {
        let ghost tail = s@.skip(i as int);
        if m <= n - i && match_at(s, pat, i, m, n) {
            out.append(to);
            proof {
                assert(tail.take(m as int) =~= s@.subrange(i as int, i + m));
                assert(tail.skip(m as int) =~= s@.skip(i + m));
                assert(out@ + replace_all(s@.skip(i + m), pat@, to@) =~= replace_all(
                    s@,
                    pat@,
                    to@,
                ));
            }
            i += m;
        } else {
            out.append(s.substring_char(i, i + 1));
            proof {
                if i + m <= n as int {
                    assert(tail.take(m as int) =~= s@.subrange(i as int, i + m));
                    assert(tail.take(m as int) != pat@);
                    assert(tail.skip(1) =~= s@.skip(i + 1));
                    assert(tail[0] == s@[i as int]);
                    assert(s@.subrange(i as int, i + 1) =~= seq![tail[0]]);
                    assert(out@ + replace_all(s@.skip(i + 1), pat@, to@) =~= replace_all(
                        s@,
                        pat@,
                        to@,
                    ));
                } else {
                    assert(tail.len() < m);
                    assert(replace_all(tail, pat@, to@) == tail);
                    assert(tail.skip(1) =~= s@.skip(i + 1));
                    assert(replace_all(s@.skip(i + 1), pat@, to@) == s@.skip(i + 1));
                    assert(s@.subrange(i as int, i + 1) =~= seq![tail[0]]);
                    assert(tail =~= seq![tail[0]] + s@.skip(i + 1));
                    assert(out@ + replace_all(s@.skip(i + 1), pat@, to@) =~= replace_all(
                        s@,
                        pat@,
                        to@,
                    ));
                }
            }
            i += 1;
        }
    }
    proof {
        assert(s@.skip(n as int) =~= Seq::<char>::empty());
        assert(replace_all(s@.skip(n as int), pat@, to@) == s@.skip(n as int));
        assert(out@ =~= out@ + Seq::<char>::empty());
    }
    out
}

/// The substitution pass: each `(token, replacement)` pair is applied as a
/// literal global replace, in the order the pairs are given, in a single
/// pass; newly substituted text is not re-expanded by an earlier pair.
pub open spec fn apply_aliases(s: Seq<char>, pairs: Seq<(String, String)>) -> Seq<char>
    decreases pairs.len(),
{
    if pairs.len() == 0 {
        s
    } else {
        apply_aliases(replace_all(s, pairs[0].0@, pairs[0].1@), pairs.skip(1))
    }
}

/// Rewrites `expr` by substituting every alias of `aliases`, each applied as
/// a literal global replace, in the order given.
pub fn resolve_aliases(expr: &str, aliases: &Vec<(String, String)>) -> (r: String)
    ensures
        r@ == apply_aliases(expr@, aliases@),
{
    let mut acc: String = expr.to_owned();
    let k = aliases.len();
    let mut i: usize = 0;
    proof {
        assert(aliases@.skip(0) =~= aliases@);
    }
    while i < k
        invariant
            k == aliases@.len(),
            0 <= i <= k,
            apply_aliases(expr@, aliases@) == apply_aliases(acc@, aliases@.skip(i as int)),
        decreases k - i,
    {
        let ghost rest = aliases@.skip(i as int);
        acc = replace_alias(acc.as_str(), aliases[i].0.as_str(), aliases[i].1.as_str());
        proof {
            assert(rest[0] == aliases@[i as int]);
            assert(rest.skip(1) =~= aliases@.skip(i + 1));
        }
        i += 1;
    }
    proof {
        assert(aliases@.skip(k as int) =~= Seq::<(String, String)>::empty());
    }
    acc
}

/// The whole resolution pipeline: substitutes the aliases into `expr`, then
/// splits the result into trimmed, non-empty sub-expressions.
pub fn resolve_expression(expr: &str, aliases: &Vec<(String, String)>) -> (r: Vec<String>)
    ensures
        r@.map_values(|t: String| t@) == split_dice_spec(apply_aliases(expr@, aliases@)),
        forall|x: int| 0 <= x < r@.len() ==> (#[trigger] r@[x])@.len() > 0,
{
    let resolved = resolve_aliases(expr, aliases);
    let parts = split_dice(resolved.as_str());
    let mut out: Vec<String> = Vec::new();
    let n = parts.len();
    let mut i: usize = 0;
    while i < n
        invariant
            n == parts@.len(),
            0 <= i <= n,
            out@.len() == i,
            forall|x: int| 0 <= x < i ==> (#[trigger] out@[x])@ == parts@[x]@,
        decreases n - i,
    {
        out.push(parts[i].to_owned());
        i += 1;
    }
    proof {
        assert(out@.map_values(|t: String| t@) =~= parts@.map_values(|t: &str| t@));
        assert(forall|x: int|
            0 <= x < out@.len() ==> (#[trigger] out@[x])@ == parts@.map_values(|t: &str| t@)[x]);
    }
    out
}

} // verus!
