//! Total preorder over version and tag strings.
//!
//! A version string is split on `.` and `-` into segments.  Two versions are
//! compared segment by segment: if both segments parse as signed 64-bit
//! integers they compare numerically, otherwise they compare as
//! case-insensitive strings.  A missing trailing segment is treated as the
//! empty string.  Case folding is ASCII: only the letters `A` to `Z` fold,
//! a deliberate choice so that the whole comparison stays a verified
//! function of the characters; published version strings are ASCII.

use vstd::prelude::*;

verus! {

use core::cmp::Ordering;
use crate::strutil::{split_by, split, lemma_first_match_is};

/// Numeric value used for case-insensitive character comparison: ASCII
/// upper-case letters are folded to lower case, every other character is
/// its own code point.  Folding beyond ASCII is not attempted.
pub open spec fn fold_val(c: char) -> int {
    if 65 <= c as int && c as int <= 90 {
        c as int + 32
    } else {
        c as int
    }
}

/// Case-insensitive lexicographic comparison of two character sequences.
pub open spec fn ci_lex_cmp(a: Seq<char>, b: Seq<char>) -> Ordering
    decreases a.len(),
{
    if a.len() == 0 && b.len() == 0 {
        Ordering::Equal
    } else if a.len() == 0 {
        Ordering::Less
    } else if b.len() == 0 {
        Ordering::Greater
    } else if fold_val(a[0]) < fold_val(b[0]) {
        Ordering::Less
    } else if fold_val(a[0]) > fold_val(b[0]) {
        Ordering::Greater
    } else {
        ci_lex_cmp(a.drop_first(), b.drop_first())
    }
}

/// The segment separators of a version string.
pub open spec fn seps_spec() -> Seq<char> {
    seq!['.', '-']
}

/// The separator characters, as a vector for the executable splitter.
pub fn sep_chars() -> (r: Vec<char>)
    ensures
        r@ == seps_spec(),
{
    let mut r: Vec<char> = Vec::new();
    r.push('.');
    r.push('-');
    proof {
        assert(r@ =~= seps_spec());
    }
    r
}

/// The segments of a version string: maximal runs between separators.  A
/// string with `n` separators always has `n + 1` segments, so consecutive
/// separators and leading or trailing separators yield empty segments.
pub open spec fn segments(s: Seq<char>) -> Seq<Seq<char>> {
    split_by(s, seps_spec())
}

/// An ASCII decimal digit.
pub open spec fn is_digit(c: char) -> bool {
    48 <= c as int && c as int <= 57
}

pub open spec fn digit_val(c: char) -> int {
    c as int - 48
}

pub open spec fn all_digits(s: Seq<char>) -> bool {
    forall|i: int| 0 <= i < s.len() ==> is_digit(#[trigger] s[i])
}

/// Unsigned value of a digit string, most significant digit first.
pub open spec fn digits_val(s: Seq<char>) -> int
    decreases s.len(),
{
    if s.len() == 0 {
        0
    } else {
        digits_val(s.drop_last()) * 10 + digit_val(s.last())
    }
}

/// The value a signed 64-bit decimal parse yields for `s`, or `None` when
/// `s` is not an optionally-signed digit string or its value is out of range.
pub open spec fn parse_i64_spec(s: Seq<char>) -> Option<int> {
    let signed = s.len() > 0 && (s[0] == '+' || s[0] == '-');
    let body = if signed {
        s.drop_first()
    } else {
        s
    };
    let neg = s.len() > 0 && s[0] == '-';
    if body.len() > 0 && all_digits(body) {
        let v = if neg {
            -digits_val(body)
        } else {
            digits_val(body)
        };
        if i64::MIN <= v <= i64::MAX {
            Some(v)
        } else {
            None
        }
    } else {
        None
    }
}

/// Comparison of one pair of segments: numeric when both sides parse as
/// signed 64-bit integers, case-insensitive lexicographic otherwise.
pub open spec fn seg_cmp(a: Seq<char>, b: Seq<char>) -> Ordering {
    match (parse_i64_spec(a), parse_i64_spec(b)) {
        (Some(x), Some(y)) => if x < y {
            Ordering::Less
        } else if x > y {
            Ordering::Greater
        } else {
            Ordering::Equal
        },
        _ => ci_lex_cmp(a, b),
    }
}

/// Compare two segment lists position by position starting at `i`; a missing
/// segment is the empty string.
pub open spec fn cmp_segments_from(sa: Seq<Seq<char>>, sb: Seq<Seq<char>>, i: int) -> Ordering
    decreases sa.len() + sb.len() - i,
{
    if i >= sa.len() && i >= sb.len() {
        Ordering::Equal
    } else {
        let a = if i < sa.len() {
            sa[i]
        } else {
            Seq::<char>::empty()
        };
        let b = if i < sb.len() {
            sb[i]
        } else {
            Seq::<char>::empty()
        };
        if seg_cmp(a, b) == Ordering::Equal {
            cmp_segments_from(sa, sb, i + 1)
        } else {
            seg_cmp(a, b)
        }
    }
}

/// The version order: segment-wise comparison of the two segment lists.
pub open spec fn version_cmp_spec(a: Seq<char>, b: Seq<char>) -> Ordering {
    cmp_segments_from(segments(a), segments(b), 0)
}

pub proof fn lemma_digits_val_nonneg(s: Seq<char>)
    requires
        all_digits(s),
    ensures
        digits_val(s) >= 0,
    decreases s.len(),
{
    if s.len() > 0 {
        assert(all_digits(s.drop_last()));
        lemma_digits_val_nonneg(s.drop_last());
    }
}

/// Appending one digit multiplies the value by ten and adds the digit.
pub proof fn lemma_digits_val_take_succ(s: Seq<char>, k: int)
    requires
        0 <= k < s.len(),
    ensures
        digits_val(s.take(k + 1)) == digits_val(s.take(k)) * 10 + digit_val(s[k]),
{
    assert(s.take(k + 1).drop_last() =~= s.take(k));
    assert(s.take(k + 1).last() == s[k]);
}

/// The value of a digit string is at least the value of any of its prefixes.
pub proof fn lemma_digits_val_prefix(s: Seq<char>, k: int)
    requires
        all_digits(s),
        0 <= k <= s.len(),
    ensures
        digits_val(s) >= digits_val(s.take(k)),
    decreases s.len() - k,
{
    if k == s.len() {
        assert(s.take(k) =~= s);
    } else {
        lemma_digits_val_take_succ(s, k);
        assert(all_digits(s.take(k)));
        lemma_digits_val_nonneg(s.take(k));
        lemma_digits_val_prefix(s, k + 1);
    }
}

/// Executable signed 64-bit decimal parse, against `parse_i64_spec`.
pub fn parse_i64(s: &str) -> (r: Option<i64>)
    ensures
        match r {
            Some(v) => parse_i64_spec(s@) == Some(v as int),
            None => parse_i64_spec(s@) is None,
        },
{
    let n = s.unicode_len();
    if n == 0 {
        return None;
    }
    let c0 = s.get_char(0);
    let neg = c0 == '-';
    let signed = c0 == '-' || c0 == '+';
    let start: usize = if signed {
        1
    } else {
        0
    };
    let ghost body = if signed {
        s@.drop_first()
    } else {
        s@
    };
    proof {
        assert(body =~= s@.skip(start as int));
    }
    if n == start {
        return None;
    }
    let limit: u64 = if neg {
        9223372036854775808
    } else {
        9223372036854775807
    };
    let mut acc: u64 = 0;
    let mut i: usize = start;
    proof {
        assert(body.take(0) =~= Seq::<char>::empty());
    }
    while i < n
        invariant
            n == s@.len(),
            n > 0,
            0 <= start <= i <= n,
            start == (if s@[0] == '+' || s@[0] == '-' {
                1usize
            } else {
                0usize
            }),
            neg == (s@[0] == '-'),
            body == (if s@[0] == '+' || s@[0] == '-' {
                s@.drop_first()
            } else {
                s@
            }),
            body == s@.skip(start as int),
            body.len() == n - start,
            forall|j: int| 0 <= j < i - start ==> is_digit(#[trigger] body[j]),
            acc as int == digits_val(body.take(i - start)),
            acc <= limit,
            limit == (if neg {
                9223372036854775808u64
            } else {
                9223372036854775807u64
            }),
        decreases n - i,
    {
        let c = s.get_char(i);
        proof {
            assert(body[i - start] == s@[i as int]);
        }
        let u = c as u32;
        if !(48 <= u && u <= 57) {
            assert(!is_digit(body[i - start]));
            return None;
        }
        let d: u64 = (u - 48) as u64;
        assert(d as int == digit_val(body[i - start]));
        if acc > (limit - d) / 10 {
            proof {
                vstd::arithmetic::div_mod::lemma_fundamental_div_mod((limit - d) as int, 10);
                lemma_digits_val_take_succ(body, i - start);
                assert(digits_val(body.take(i - start + 1)) > limit);
                if all_digits(body) {
                    lemma_digits_val_prefix(body, i - start + 1);
                    assert(digits_val(body) > limit);
                }
            }
            return None;
        }
        proof {
            vstd::arithmetic::div_mod::lemma_fundamental_div_mod((limit - d) as int, 10);
            lemma_digits_val_take_succ(body, i - start);
        }
        acc = acc * 10 + d;
        i = i + 1;
    }
    proof {
        assert(body.take(n - start) =~= body);
        assert(all_digits(body));
        lemma_digits_val_nonneg(body);
    }
    if neg {
        if acc == 9223372036854775808 {
            Some(i64::MIN)
        } else {
            Some(-(acc as i64))
        }
    } else {
        Some(acc as i64)
    }
}

/// Value used by the executable case-insensitive comparison.
fn fold_char(c: char) -> (r: u32)
    ensures
        r as int == fold_val(c),
{
    let u = c as u32;
    if 65 <= u && u <= 90 {
        u + 32
    } else {
        u
    }
}

/// One unfolding step of `ci_lex_cmp` on the suffixes starting at `i`.
proof fn lemma_ci_cmp_skip_unfold(a: Seq<char>, b: Seq<char>, i: int)
    requires
        0 <= i <= a.len(),
        0 <= i <= b.len(),
    ensures
        i < a.len() && i < b.len() && fold_val(a[i]) == fold_val(b[i]) ==> ci_lex_cmp(
            a.skip(i),
            b.skip(i),
        ) == ci_lex_cmp(a.skip(i + 1), b.skip(i + 1)),
        i < a.len() && i < b.len() && fold_val(a[i]) < fold_val(b[i]) ==> ci_lex_cmp(
            a.skip(i),
            b.skip(i),
        ) == Ordering::Less,
        i < a.len() && i < b.len() && fold_val(a[i]) > fold_val(b[i]) ==> ci_lex_cmp(
            a.skip(i),
            b.skip(i),
        ) == Ordering::Greater,
        i == a.len() && i == b.len() ==> ci_lex_cmp(a.skip(i), b.skip(i)) == Ordering::Equal,
        i == a.len() && i < b.len() ==> ci_lex_cmp(a.skip(i), b.skip(i)) == Ordering::Less,
        i < a.len() && i == b.len() ==> ci_lex_cmp(a.skip(i), b.skip(i)) == Ordering::Greater,
{
    if i < a.len() && i < b.len() {
        assert(a.skip(i).drop_first() =~= a.skip(i + 1));
        assert(b.skip(i).drop_first() =~= b.skip(i + 1));
    }
}

/// Executable case-insensitive comparison, against `ci_lex_cmp`.
pub fn ci_str_cmp(a: &str, b: &str) -> (r: Ordering)
    ensures
        r == ci_lex_cmp(a@, b@),
{
    let na = a.unicode_len();
    let nb = b.unicode_len();
    let mut i: usize = 0;
    proof {
        assert(a@.skip(0) =~= a@);
        assert(b@.skip(0) =~= b@);
    }
    loop
        invariant
            na == a@.len(),
            nb == b@.len(),
            0 <= i <= na,
            i <= nb,
            ci_lex_cmp(a@, b@) == ci_lex_cmp(a@.skip(i as int), b@.skip(i as int)),
        decreases na - i,
    {
        proof {
            lemma_ci_cmp_skip_unfold(a@, b@, i as int);
        }
        if i >= na || i >= nb {
            if na == nb {
                return Ordering::Equal;
            } else if i >= na {
                return Ordering::Less;
            } else {
                return Ordering::Greater;
            }
        }
        let fa = fold_char(a.get_char(i));
        let fb = fold_char(b.get_char(i));
        if fa < fb {
            return Ordering::Less;
        } else if fa > fb {
            return Ordering::Greater;
        }
        i = i + 1;
    }
}

/// Executable comparison of one pair of segments, against `seg_cmp`.
pub fn seg_cmp_exec(a: &str, b: &str) -> (r: Ordering)
    ensures
        r == seg_cmp(a@, b@),
{
    let pa = parse_i64(a);
    let pb = parse_i64(b);
    match (pa, pb) {
        (Some(x), Some(y)) => {
            if x < y {
                Ordering::Less
            } else if x > y {
                Ordering::Greater
            } else {
                Ordering::Equal
            }
        },
        _ => ci_str_cmp(a, b),
    }
}

/// Compare two version strings: numerically where both segments parse as
/// signed 64-bit integers, case-insensitively otherwise, padding the shorter
/// segment list with empty segments.  The case folding is ASCII-only (see
/// `fold_val`); characters beyond `A` to `Z` compare by code point.
pub fn version_cmp(a: &str, b: &str) -> (r: Ordering)
    ensures
        r == version_cmp_spec(a@, b@),
{
    let seps = sep_chars();
    let sa = split(a, &seps);
    let sb = split(b, &seps);
    let ghost ga = sa@.map_values(|t: String| t@);
    let ghost gb = sb@.map_values(|t: String| t@);
    let mut i: usize = 0;
    loop
        invariant
            ga == sa@.map_values(|t: String| t@),
            gb == sb@.map_values(|t: String| t@),
            ga == segments(a@),
            gb == segments(b@),
            0 <= i <= ga.len() + gb.len(),
            version_cmp_spec(a@, b@) == cmp_segments_from(ga, gb, i as int),
        decreases ga.len() + gb.len() - i,
    {
        if i >= sa.len() && i >= sb.len() {
            return Ordering::Equal;
        }
        let pa: &str = if i < sa.len() {
            sa[i].as_str()
        } else {
            ""
        };
        let pb: &str = if i < sb.len() {
            sb[i].as_str()
        } else {
            ""
        };
        proof {
            reveal_strlit("");
            assert(""@ =~= Seq::<char>::empty());
        }
        let c = seg_cmp_exec(pa, pb);
        match c {
            Ordering::Equal => {
                i = i + 1;
            },
            _ => {
                return c;
            },
        }
    }
}

/// The view of an optional bound.
pub open spec fn opt_view(o: Option<&str>) -> Option<Seq<char>> {
    match o {
        Some(s) => Some(s@),
        None => None,
    }
}

/// Does `v` lie within the optional bounds under the version order?
pub open spec fn in_range(v: Seq<char>, from: Option<Seq<char>>, to: Option<Seq<char>>) -> bool {
    &&& (from is Some ==> version_cmp_spec(v, from->0) != Ordering::Less)
    &&& (to is Some ==> version_cmp_spec(v, to->0) != Ordering::Greater)
}

/// The subsequence of `vs` lying within the bounds, in input order.
pub open spec fn filter_spec(
    vs: Seq<Seq<char>>,
    from: Option<Seq<char>>,
    to: Option<Seq<char>>,
) -> Seq<Seq<char>>
    decreases vs.len(),
{
    if vs.len() == 0 {
        Seq::empty()
    } else {
        let rest = filter_spec(vs.drop_first(), from, to);
        if in_range(vs[0], from, to) {
            seq![vs[0]] + rest
        } else {
            rest
        }
    }
}

/// Executable range test on one version string.
fn in_range_exec(v: &str, from: Option<&str>, to: Option<&str>) -> (r: bool)
    ensures
        r == in_range(v@, opt_view(from), opt_view(to)),
{
    if let Some(f) = from {
        if matches!(version_cmp(v, f), Ordering::Less) {
            return false;
        }
    }
    if let Some(t) = to {
        if matches!(version_cmp(v, t), Ordering::Greater) {
            return false;
        }
    }
    true
}

/// Keep the versions that lie within the optional bounds, preserving order.
/// The input is not re-sorted: the caller passes a list already ordered by
/// `version_cmp`.
pub fn filter_versions(versions: &Vec<String>, from: Option<&str>, to: Option<&str>) -> (r: Vec<
    String,
>)
    ensures
        r@.map_values(|t: String| t@) == filter_spec(
            versions@.map_values(|t: String| t@),
            opt_view(from),
            opt_view(to),
        ),
{
    let ghost vs = versions@.map_values(|t: String| t@);
    let ghost fv = opt_view(from);
    let ghost tv = opt_view(to);
    let mut r: Vec<String> = Vec::new();
    let mut i: usize = 0;
    proof {
        assert(vs.skip(0) =~= vs);
    }
    while i < versions.len()
        invariant
            vs == versions@.map_values(|t: String| t@),
            fv == opt_view(from),
            tv == opt_view(to),
            0 <= i <= vs.len(),
            filter_spec(vs, fv, tv) == r@.map_values(|t: String| t@) + filter_spec(
                vs.skip(i as int),
                fv,
                tv,
            ),
        decreases vs.len() - i,
    {
        proof {
            assert(vs.skip(i as int).drop_first() =~= vs.skip(i + 1));
            assert(vs.skip(i as int)[0] == vs[i as int]);
        }
        let keep = in_range_exec(versions[i].as_str(), from, to);
        if keep {
            let ghost old_r = r@;
            r.push(versions[i].clone());
            proof {
                assert(r@.map_values(|t: String| t@) =~= old_r.map_values(|t: String| t@) + seq![
                    vs[i as int],
                ]);
            }
        }
        i = i + 1;
    }
    proof {
        assert(vs.skip(vs.len() as int) =~= Seq::<Seq<char>>::empty());
        assert(filter_spec(vs, fv, tv) =~= r@.map_values(|t: String| t@));
    }
    r
}

/// Every version the filter keeps lies within the bounds.
pub proof fn lemma_filter_members(vs: Seq<Seq<char>>, from: Option<Seq<char>>, to: Option<Seq<char>>)
    ensures
        forall|j: int|
            0 <= j < filter_spec(vs, from, to).len() ==> in_range(
                #[trigger] filter_spec(vs, from, to)[j],
                from,
                to,
            ),
    decreases vs.len(),
{
    if vs.len() > 0 {
        lemma_filter_members(vs.drop_first(), from, to);
        let rest = filter_spec(vs.drop_first(), from, to);
        let f = filter_spec(vs, from, to);
        assert forall|j: int| 0 <= j < f.len() implies in_range(#[trigger] f[j], from, to) by {
            if in_range(vs[0], from, to) {
                if j == 0 {
                    assert(f[0] == vs[0]);
                } else {
                    assert(f[j] == rest[j - 1]);
                }
            } else {
                assert(f[j] == rest[j]);
            }
        }
    }
}

/// Filtering a list each member of which lies within the bounds returns the
/// list unchanged.
pub proof fn lemma_filter_noop(vs: Seq<Seq<char>>, from: Option<Seq<char>>, to: Option<Seq<char>>)
    requires
        forall|j: int| 0 <= j < vs.len() ==> in_range(#[trigger] vs[j], from, to),
    ensures
        filter_spec(vs, from, to) == vs,
    decreases vs.len(),
{
    if vs.len() == 0 {
        assert(filter_spec(vs, from, to) =~= vs);
    } else {
        assert forall|j: int| 0 <= j < vs.drop_first().len() implies in_range(
            #[trigger] vs.drop_first()[j],
            from,
            to,
        ) by {
            assert(vs.drop_first()[j] == vs[j + 1]);
        }
        lemma_filter_noop(vs.drop_first(), from, to);
        assert(vs[0] == vs.first());
        assert(filter_spec(vs, from, to) =~= vs);
    }
}

/// Filtering is idempotent: applying the same bounds twice yields the same
/// list as applying them once.
pub proof fn lemma_filter_idempotent(
    vs: Seq<Seq<char>>,
    from: Option<Seq<char>>,
    to: Option<Seq<char>>,
)
    ensures
        filter_spec(filter_spec(vs, from, to), from, to) == filter_spec(vs, from, to),
{
    lemma_filter_members(vs, from, to);
    lemma_filter_noop(filter_spec(vs, from, to), from, to);
}

/// The decimal digit string of a non-negative integer.
pub open spec fn dec_str(n: int) -> Seq<char>
    decreases n,
{
    if n <= 9 {
        seq![(48 + (if n >= 0 { n } else { 0 })) as char]
    } else {
        dec_str(n / 10).push((48 + n % 10) as char)
    }
}

/// `dec_str(n)` is a non-empty separator-free digit string with value `n`.
pub proof fn lemma_dec_str(n: int)
    requires
        n >= 0,
    ensures
        dec_str(n).len() >= 1,
        all_digits(dec_str(n)),
        digits_val(dec_str(n)) == n,
        forall|j: int| 0 <= j < dec_str(n).len() ==> !seps_spec().contains(#[trigger] dec_str(n)[j]),
        !(dec_str(n)[0] == '+' || dec_str(n)[0] == '-'),
    decreases n,
{
    if n <= 9 {
        let c = (48 + n) as char;
        assert(c as int == 48 + n);
        assert(dec_str(n) =~= seq![c]);
        assert(seq![c].drop_last() =~= Seq::<char>::empty());
        assert(digits_val(Seq::<char>::empty()) == 0);
        assert(digits_val(seq![c]) == digit_val(c));
        assert(!seps_spec().contains(c)) by {
            assert('.' as int == 46 && '-' as int == 45);
            if seps_spec().contains(c) {
                let k = choose|k: int| 0 <= k < seps_spec().len() && seps_spec()[k] == c;
                assert(seps_spec()[k] == '.' || seps_spec()[k] == '-');
            }
        }
        assert('+' as int == 43 && '-' as int == 45);
    } else {
        lemma_dec_str(n / 10);
        vstd::arithmetic::div_mod::lemma_fundamental_div_mod(n, 10);
        let d = (48 + n % 10) as char;
        assert(d as int == 48 + n % 10);
        let s = dec_str(n);
        assert(s == dec_str(n / 10).push(d));
        assert(s.drop_last() =~= dec_str(n / 10));
        assert(s.last() == d);
        assert(digits_val(s) == digits_val(dec_str(n / 10)) * 10 + digit_val(d));
        assert(digits_val(s) == n);
        assert forall|j: int| 0 <= j < s.len() implies is_digit(#[trigger] s[j]) by {
            if j < s.len() - 1 {
                assert(s[j] == dec_str(n / 10)[j]);
            }
        }
        assert(!seps_spec().contains(d)) by {
            assert('.' as int == 46 && '-' as int == 45);
            if seps_spec().contains(d) {
                let k = choose|k: int| 0 <= k < seps_spec().len() && seps_spec()[k] == d;
                assert(seps_spec()[k] == '.' || seps_spec()[k] == '-');
            }
        }
        assert forall|j: int| 0 <= j < s.len() implies !seps_spec().contains(#[trigger] s[j]) by {
            if j < s.len() - 1 {
                assert(s[j] == dec_str(n / 10)[j]);
            }
        }
        assert(s[0] == dec_str(n / 10)[0]);
    }
}

/// The reverse of one comparison outcome.
pub open spec fn flip(o: Ordering) -> Ordering {
    match o {
        Ordering::Less => Ordering::Greater,
        Ordering::Equal => Ordering::Equal,
        Ordering::Greater => Ordering::Less,
    }
}

proof fn lemma_ci_swap(a: Seq<char>, b: Seq<char>)
    ensures
        ci_lex_cmp(b, a) == flip(ci_lex_cmp(a, b)),
    decreases a.len(),
{
    if a.len() != 0 && b.len() != 0 && fold_val(a[0]) == fold_val(b[0]) {
        lemma_ci_swap(a.drop_first(), b.drop_first());
    }
}

proof fn lemma_seg_swap(a: Seq<char>, b: Seq<char>)
    ensures
        seg_cmp(b, a) == flip(seg_cmp(a, b)),
{
    lemma_ci_swap(a, b);
}

proof fn lemma_cmp_segments_swap(sa: Seq<Seq<char>>, sb: Seq<Seq<char>>, i: int)
    ensures
        cmp_segments_from(sb, sa, i) == flip(cmp_segments_from(sa, sb, i)),
    decreases sa.len() + sb.len() - i,
{
    if !(i >= sa.len() && i >= sb.len()) {
        let a = if i < sa.len() {
            sa[i]
        } else {
            Seq::<char>::empty()
        };
        let b = if i < sb.len() {
            sb[i]
        } else {
            Seq::<char>::empty()
        };
        lemma_seg_swap(a, b);
        if seg_cmp(a, b) == Ordering::Equal {
            lemma_cmp_segments_swap(sa, sb, i + 1);
        }
    }
}

/// Swapping the arguments of the version order reverses its outcome.
pub proof fn lemma_version_swap(a: Seq<char>, b: Seq<char>)
    ensures
        version_cmp_spec(b, a) == flip(version_cmp_spec(a, b)),
{
    lemma_cmp_segments_swap(segments(a), segments(b), 0);
}

/// `a` sorts no later than `b`.
pub open spec fn version_le(a: Seq<char>, b: Seq<char>) -> bool {
    version_cmp_spec(a, b) != Ordering::Greater
}

/// `x` placed into `vs` before the first version it sorts strictly below:
/// a version comparing equal to ones already present goes after them, so
/// repeated insertion sorts stably.
pub open spec fn insert_version_spec(vs: Seq<Seq<char>>, x: Seq<char>) -> Seq<Seq<char>>
    decreases vs.len(),
{
    if vs.len() == 0 {
        seq![x]
    } else if version_cmp_spec(x, vs[0]) == Ordering::Less {
        seq![x] + vs
    } else {
        seq![vs[0]] + insert_version_spec(vs.drop_first(), x)
    }
}

/// The stable insertion sort of `vs` under the version order.
pub open spec fn sort_versions_spec(vs: Seq<Seq<char>>) -> Seq<Seq<char>>
    decreases vs.len(),
{
    if vs.len() == 0 {
        Seq::empty()
    } else {
        insert_version_spec(sort_versions_spec(vs.drop_last()), vs.last())
    }
}

/// `insert_version_spec` places `x` at the first position whose version
/// sorts strictly above `x`.
proof fn lemma_insert_version_at(vs: Seq<Seq<char>>, x: Seq<char>, p: int)
    requires
        0 <= p <= vs.len(),
        forall|j: int| 0 <= j < p ==> version_cmp_spec(x, #[trigger] vs[j]) != Ordering::Less,
        p < vs.len() ==> version_cmp_spec(x, vs[p]) == Ordering::Less,
    ensures
        insert_version_spec(vs, x) == vs.insert(p, x),
    decreases vs.len(),
{
    if vs.len() == 0 {
        assert(insert_version_spec(vs, x) =~= vs.insert(0, x));
    } else if p == 0 {
        assert(seq![x] + vs =~= vs.insert(0, x));
    } else {
        assert(version_cmp_spec(x, vs[0]) != Ordering::Less);
        assert forall|j: int|
            0 <= j < p - 1 implies version_cmp_spec(x, #[trigger] vs.drop_first()[j])
            != Ordering::Less by {
            assert(vs.drop_first()[j] == vs[j + 1]);
        }
        if p - 1 < vs.drop_first().len() {
            assert(vs.drop_first()[p - 1] == vs[p]);
        }
        lemma_insert_version_at(vs.drop_first(), x, p - 1);
        assert(seq![vs[0]] + vs.drop_first().insert(p - 1, x) =~= vs.insert(p, x));
    }
}

/// Each version sorts no later than the next one.
pub open spec fn versions_sorted(vs: Seq<Seq<char>>) -> bool {
    forall|i: int| 0 <= i < vs.len() - 1 ==> version_le(#[trigger] vs[i], vs[i + 1])
}

/// Insert `x` into a version-sorted list, keeping it sorted; a version
/// comparing equal to ones already present goes after them.
fn insert_version(out: &mut Vec<String>, x: String)
    requires
        versions_sorted(crate::strutil::str_views(old(out)@)),
    ensures
        versions_sorted(crate::strutil::str_views(final (out)@)),
        final (out)@.len() == old(out)@.len() + 1,
        crate::strutil::str_views(final (out)@) == insert_version_spec(
            crate::strutil::str_views(old(out)@),
            x@,
        ),
        crate::strutil::str_views(final (out)@).to_multiset() == crate::strutil::str_views(
            old(out)@,
        ).to_multiset().insert(x@),
{
    let ghost vs = crate::strutil::str_views(out@);
    let mut p: usize = 0;
    while p < out.len() && !matches!(version_cmp(x.as_str(), out[p].as_str()), Ordering::Less)
        invariant
            vs == crate::strutil::str_views(out@),
            out@ == old(out)@,
            0 <= p <= vs.len(),
            forall|j: int|
                0 <= j < p ==> version_cmp_spec(x@, #[trigger] vs[j]) != Ordering::Less,
        decreases vs.len() - p,
    {
        p = p + 1;
    }
    let ghost pp = p as int;
    proof {
        lemma_insert_version_at(vs, x@, pp);
    }
    out.insert(p, x);
    proof {
        broadcast use vstd::seq_lib::group_to_multiset_ensures;

        let nv = crate::strutil::str_views(out@);
        assert(nv =~= vs.insert(pp, x@));
        assert forall|i: int| 0 <= i < nv.len() - 1 implies version_le(
            #[trigger] nv[i],
            nv[i + 1],
        ) by {
            if i + 1 < pp {
                assert(nv[i] == vs[i] && nv[i + 1] == vs[i + 1]);
            } else if i + 1 == pp {
                assert(nv[i] == vs[i]);
                lemma_version_swap(x@, vs[i]);
            } else if i == pp {
                if pp < vs.len() {
                    assert(nv[i + 1] == vs[pp]);
                }
            } else {
                assert(nv[i] == vs[i - 1] && nv[i + 1] == vs[i]);
            }
        }
        assert(nv.remove(pp) =~= vs);
        assert(nv.remove(pp).to_multiset() =~= nv.to_multiset().remove(nv[pp]));
        assert forall|t: Seq<char>| true implies nv.to_multiset().count(t) == vs.to_multiset()
            .insert(x@).count(t) by {
            if t == x@ {
                assert(nv.contains(x@)) by {
                    assert(nv[pp] == x@);
                }
                assert(nv.to_multiset().count(x@) > 0);
            }
        }
        assert(nv.to_multiset() =~= vs.to_multiset().insert(x@));
    }
}

/// Sort the version list ascending under the version order, stably: the
/// result is exactly `sort_versions_spec` of the input, which keeps
/// versions that compare equal in their input order.
pub fn sort_versions(versions: Vec<String>) -> (r: Vec<String>)
    ensures
        versions_sorted(crate::strutil::str_views(r@)),
        crate::strutil::str_views(r@) == sort_versions_spec(crate::strutil::str_views(versions@)),
        crate::strutil::str_views(r@).to_multiset() == crate::strutil::str_views(
            versions@,
        ).to_multiset(),
        r@.len() == versions@.len(),
{
    let ghost vs = crate::strutil::str_views(versions@);
    let mut r: Vec<String> = Vec::new();
    let mut i: usize = 0;
    proof {
        broadcast use vstd::seq_lib::group_to_multiset_ensures;

        assert(crate::strutil::str_views(r@).to_multiset() =~= vs.take(0).to_multiset());
    }
    while i < versions.len()
        invariant
            vs == crate::strutil::str_views(versions@),
            0 <= i <= vs.len(),
            versions_sorted(crate::strutil::str_views(r@)),
            crate::strutil::str_views(r@) == sort_versions_spec(vs.take(i as int)),
            crate::strutil::str_views(r@).to_multiset() == vs.take(i as int).to_multiset(),
            r@.len() == i,
        decreases vs.len() - i,
    {
        let x = versions[i].clone();
        assert(x@ == vs[i as int]);
        insert_version(&mut r, x);
        proof {
            broadcast use vstd::seq_lib::group_to_multiset_ensures;

            assert(vs.take(i + 1) =~= vs.take(i as int).push(vs[i as int]));
            assert(vs.take(i + 1).drop_last() =~= vs.take(i as int));
            assert(vs.take(i + 1).last() == vs[i as int]);
            assert(vs.take(i + 1).to_multiset() =~= vs.take(i as int).to_multiset().insert(
                vs[i as int],
            ));
        }
        i = i + 1;
    }
    proof {
        assert(vs.take(vs.len() as int) =~= vs);
    }
    r
}

/// The version order agrees with the numeric order on decimal strings of
/// non-negative 64-bit integers.
pub proof fn lemma_numeric_order(m: int, n: int)
    requires
        0 <= m < n <= i64::MAX,
    ensures
        version_cmp_spec(dec_str(m), dec_str(n)) == Ordering::Less,
{
    lemma_dec_str(m);
    lemma_dec_str(n);
    let a = dec_str(m);
    let b = dec_str(n);
    lemma_first_match_is(a, seps_spec(), a.len() as int);
    lemma_first_match_is(b, seps_spec(), b.len() as int);
    assert(segments(a) =~= seq![a]);
    assert(segments(b) =~= seq![b]);
    assert(parse_i64_spec(a) == Some(m));
    assert(parse_i64_spec(b) == Some(n));
    assert(seg_cmp(a, b) == Ordering::Less);
    assert(cmp_segments_from(seq![a], seq![b], 0) == Ordering::Less);
}

} // verus!
