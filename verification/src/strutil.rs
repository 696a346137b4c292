//! Verified character-level string helpers.
//!
//! Identifiers and version strings are modelled as sequences of characters
//! (`Seq<char>`); every executable helper here is specified against that
//! model.

use vstd::prelude::*;

verus! {

use core::cmp::Ordering;

/// Case-sensitive lexicographic comparison of two character sequences by
/// code point, the order `Ord` on `str` induces.
pub open spec fn lex_cmp(a: Seq<char>, b: Seq<char>) -> Ordering
    decreases a.len(),
{
    if a.len() == 0 && b.len() == 0 {
        Ordering::Equal
    } else if a.len() == 0 {
        Ordering::Less
    } else if b.len() == 0 {
        Ordering::Greater
    } else if (a[0] as int) < (b[0] as int) {
        Ordering::Less
    } else if (a[0] as int) > (b[0] as int) {
        Ordering::Greater
    } else {
        lex_cmp(a.drop_first(), b.drop_first())
    }
}

pub open spec fn lex_le(a: Seq<char>, b: Seq<char>) -> bool {
    lex_cmp(a, b) != Ordering::Greater
}

pub open spec fn lex_lt(a: Seq<char>, b: Seq<char>) -> bool {
    lex_cmp(a, b) == Ordering::Less
}

/// `lex_cmp` returns `Equal` exactly on equal sequences.
pub proof fn lemma_lex_eq(a: Seq<char>, b: Seq<char>)
    ensures
        lex_cmp(a, b) == Ordering::Equal <==> a == b,
    decreases a.len(),
{
    if a.len() == 0 && b.len() == 0 {
        assert(a =~= b);
    } else if a.len() == 0 || b.len() == 0 {
    } else if a[0] as int == b[0] as int {
        lemma_lex_eq(a.drop_first(), b.drop_first());
        assert(a[0] == b[0]);
        if a.drop_first() == b.drop_first() && a[0] == b[0] {
            assert forall|j: int| 0 <= j < a.len() implies a[j] == b[j] by {
                if j > 0 {
                    assert(a.drop_first()[j - 1] == b.drop_first()[j - 1]);
                }
            }
            assert(a =~= b);
        }
        if a == b {
            assert(a.drop_first() =~= b.drop_first());
        }
    } else {
        if a == b {
            assert(a[0] == b[0]);
        }
    }
}

/// Swapping the arguments of `lex_cmp` swaps `Less` and `Greater`.
pub proof fn lemma_lex_antisym(a: Seq<char>, b: Seq<char>)
    ensures
        lex_cmp(a, b) == Ordering::Less <==> lex_cmp(b, a) == Ordering::Greater,
    decreases a.len(),
{
    if a.len() != 0 && b.len() != 0 && a[0] as int == b[0] as int {
        lemma_lex_antisym(a.drop_first(), b.drop_first());
    }
}

/// `lex_le` is transitive.
pub proof fn lemma_lex_trans(a: Seq<char>, b: Seq<char>, c: Seq<char>)
    requires
        lex_le(a, b),
        lex_le(b, c),
    ensures
        lex_le(a, c),
    decreases a.len(),
{
    lemma_lex_antisym(a, b);
    lemma_lex_antisym(b, c);
    lemma_lex_antisym(a, c);
    if a.len() != 0 && b.len() != 0 && c.len() != 0 {
        if a[0] as int == b[0] as int && b[0] as int == c[0] as int {
            lemma_lex_trans(a.drop_first(), b.drop_first(), c.drop_first());
        }
    }
}

/// Executable test of sequence equality on two string slices.
pub fn str_eq(a: &str, b: &str) -> (r: bool)
    ensures
        r == (a@ == b@),
{
    let na = a.unicode_len();
    let nb = b.unicode_len();
    if na != nb {
        assert(a@ != b@);
        return false;
    }
    let mut i: usize = 0;
    while i < na
        invariant
            na == a@.len(),
            na == b@.len(),
            0 <= i <= na,
            forall|j: int| 0 <= j < i ==> a@[j] == b@[j],
        decreases na - i,
    {
        if a.get_char(i) != b.get_char(i) {
            return false;
        }
        i = i + 1;
    }
    assert(a@ =~= b@);
    true
}

/// Executable `lex_cmp` on two string slices.
pub fn str_cmp(a: &str, b: &str) -> (r: Ordering)
    ensures
        r == lex_cmp(a@, b@),
{
    let na = a.unicode_len();
    let nb = b.unicode_len();
    let mut i: usize = 0;
    proof {
        assert(a@.skip(0) =~= a@);
        assert(b@.skip(0) =~= b@);
    }
    loop
        invariant
            na == a@.len(),
            nb == b@.len(),
            0 <= i <= na,
            i <= nb,
            lex_cmp(a@, b@) == lex_cmp(a@.skip(i as int), b@.skip(i as int)),
        decreases na - i,
    {
        proof {
            lemma_lex_cmp_skip_unfold(a@, b@, i as int);
        }
        if i >= na || i >= nb {
            if na == nb {
                return Ordering::Equal;
            } else if i >= na {
                return Ordering::Less;
            } else {
                return Ordering::Greater;
            }
        }
        let ca = a.get_char(i);
        let cb = b.get_char(i);
        if (ca as u32) < (cb as u32) {
            return Ordering::Less;
        } else if (ca as u32) > (cb as u32) {
            return Ordering::Greater;
        }
        i = i + 1;
    }
}

/// Index of the first character of `s` that occurs in `seps`, or `s.len()`
/// if there is none.
pub open spec fn first_match(s: Seq<char>, seps: Seq<char>) -> int
    decreases s.len(),
{
    if s.len() == 0 {
        0
    } else if seps.contains(s[0]) {
        0
    } else {
        1 + first_match(s.drop_first(), seps)
    }
}

pub proof fn lemma_first_match(s: Seq<char>, seps: Seq<char>)
    ensures
        0 <= first_match(s, seps) <= s.len(),
        first_match(s, seps) < s.len() ==> seps.contains(s[first_match(s, seps)]),
        forall|j: int| 0 <= j < first_match(s, seps) ==> !seps.contains(s[j]),
    decreases s.len(),
{
    if s.len() == 0 {
    } else if seps.contains(s[0]) {
    } else {
        lemma_first_match(s.drop_first(), seps);
        assert forall|j: int| 0 <= j < first_match(s, seps) implies !seps.contains(s[j]) by {
            if j > 0 {
                assert(!seps.contains(s.drop_first()[j - 1]));
            }
        }
    }
}

/// `first_match` is the only index with no separator before it and a
/// separator (or the end of the string) at it.
pub proof fn lemma_first_match_is(s: Seq<char>, seps: Seq<char>, k: int)
    requires
        0 <= k <= s.len(),
        forall|j: int| 0 <= j < k ==> !seps.contains(s[j]),
        k == s.len() || seps.contains(s[k]),
    ensures
        first_match(s, seps) == k,
{
    lemma_first_match(s, seps);
    if first_match(s, seps) < k {
        assert(seps.contains(s[first_match(s, seps)]));
    }
}

/// The pieces of `s` between characters of `seps`: a string containing `n`
/// separator characters always splits into `n + 1` pieces, so consecutive,
/// leading or trailing separators yield empty pieces.
pub open spec fn split_by(s: Seq<char>, seps: Seq<char>) -> Seq<Seq<char>>
    decreases s.len(),
    via split_by_decreases
{
    if first_match(s, seps) >= s.len() {
        seq![s]
    } else {
        seq![s.subrange(0, first_match(s, seps))] + split_by(
            s.subrange(first_match(s, seps) + 1, s.len() as int),
            seps,
        )
    }
}

#[via_fn]
proof fn split_by_decreases(s: Seq<char>, seps: Seq<char>) {
    lemma_first_match(s, seps);
}

/// Does `c` occur in `seps`?
pub fn contains_char(seps: &Vec<char>, c: char) -> (r: bool)
    ensures
        r == seps@.contains(c),
{
    let mut k: usize = 0;
    while k < seps.len()
        invariant
            0 <= k <= seps@.len(),
            forall|j: int| 0 <= j < k ==> seps@[j] != c,
        decreases seps@.len() - k,
    {
        if seps[k] == c {
            return true;
        }
        k = k + 1;
    }
    false
}

/// Split `s` at every character that occurs in `seps`.
pub fn split(s: &str, seps: &Vec<char>) -> (r: Vec<String>)
    ensures
        r@.map_values(|t: String| t@) == split_by(s@, seps@),
{
    let n = s.unicode_len();
    let mut r: Vec<String> = Vec::new();
    let mut start: usize = 0;
    let mut i: usize = 0;
    proof {
        assert(s@.skip(0) =~= s@);
    }
    while i < n
        invariant
            n == s@.len(),
            0 <= start <= i <= n,
            forall|j: int| start <= j < i ==> !seps@.contains(s@[j]),
            split_by(s@, seps@) == r@.map_values(|t: String| t@) + split_by(
                s@.skip(start as int),
                seps@,
            ),
        decreases n - i,
    {
        let c = s.get_char(i);
        if contains_char(seps, c) {
            let piece = String::from_str(s.substring_char(start, i));
            proof {
                let rest = s@.skip(start as int);
                assert forall|j: int| 0 <= j < i - start implies !seps@.contains(rest[j]) by {
                    assert(rest[j] == s@[start + j]);
                }
                assert(rest[i - start] == s@[i as int]);
                lemma_first_match_is(rest, seps@, i - start);
                assert(rest.subrange(0, i - start) =~= s@.subrange(start as int, i as int));
                assert(rest.subrange(i - start + 1, rest.len() as int) =~= s@.skip(i + 1));
                assert(split_by(rest, seps@) == seq![s@.subrange(start as int, i as int)]
                    + split_by(s@.skip(i + 1), seps@));
            }
            let ghost old_r = r@;
            r.push(piece);
            proof {
                assert(r@.map_values(|t: String| t@) =~= old_r.map_values(|t: String| t@)
                    + seq![s@.subrange(start as int, i as int)]);
            }
            start = i + 1;
        }
        i = i + 1;
    }
    let piece = String::from_str(s.substring_char(start, n));
    proof {
        let rest = s@.skip(start as int);
        assert forall|j: int| 0 <= j < rest.len() implies !seps@.contains(rest[j]) by {
            assert(rest[j] == s@[start + j]);
        }
        lemma_first_match_is(rest, seps@, rest.len() as int);
        assert(rest =~= s@.subrange(start as int, n as int));
    }
    let ghost old_r = r@;
    r.push(piece);
    proof {
        assert(r@.map_values(|t: String| t@) =~= old_r.map_values(|t: String| t@) + seq![
            s@.subrange(start as int, n as int),
        ]);
    }
    r
}

/// Is `p` a prefix of `s`?
pub open spec fn has_prefix(s: Seq<char>, p: Seq<char>) -> bool {
    p.len() <= s.len() && s.subrange(0, p.len() as int) == p
}

/// Is `p` a suffix of `s`?
pub open spec fn has_suffix(s: Seq<char>, p: Seq<char>) -> bool {
    p.len() <= s.len() && s.subrange(s.len() - p.len(), s.len() as int) == p
}

/// Executable prefix test.
pub fn starts_with(s: &str, p: &str) -> (r: bool)
    ensures
        r == has_prefix(s@, p@),
{
    let np = p.unicode_len();
    if np > s.unicode_len() {
        return false;
    }
    str_eq(s.substring_char(0, np), p)
}

/// Executable suffix test.
pub fn ends_with(s: &str, p: &str) -> (r: bool)
    ensures
        r == has_suffix(s@, p@),
{
    let np = p.unicode_len();
    let ns = s.unicode_len();
    if np > ns {
        return false;
    }
    str_eq(s.substring_char(ns - np, ns), p)
}

/// The character-sequence views of a list of strings.
pub open spec fn str_views(v: Seq<String>) -> Seq<Seq<char>> {
    v.map_values(|t: String| t@)
}

/// Ascending under the lexicographic order.
pub open spec fn sorted_le(s: Seq<Seq<char>>) -> bool {
    forall|i: int, j: int| 0 <= i < j < s.len() ==> lex_le(#[trigger] s[i], #[trigger] s[j])
}

/// Pairwise distinct.
pub open spec fn distinct_seq(s: Seq<Seq<char>>) -> bool {
    forall|i: int, j: int| 0 <= i < j < s.len() ==> #[trigger] s[i] != #[trigger] s[j]
}

/// The element set of a pushed sequence.
pub proof fn lemma_to_set_push(s: Seq<Seq<char>>, x: Seq<char>)
    ensures
        s.push(x).to_set() == s.to_set().insert(x),
{
    assert forall|k: Seq<char>| #[trigger]
        s.push(x).to_set().contains(k) implies s.to_set().insert(x).contains(k) by {
        let i = choose|i: int| 0 <= i < s.push(x).len() && s.push(x)[i] == k;
        if i < s.len() {
            assert(s[i] == k);
        }
    }
    assert forall|k: Seq<char>| #[trigger]
        s.to_set().insert(x).contains(k) implies s.push(x).to_set().contains(k) by {
        if k == x {
            assert(s.push(x)[s.len() as int] == k);
        } else {
            let i = choose|i: int| 0 <= i < s.len() && s[i] == k;
            assert(s.push(x)[i] == k);
        }
    }
    assert(s.push(x).to_set() =~= s.to_set().insert(x));
}

/// A sequence with an empty element set is empty.
pub proof fn lemma_empty_set_seq(s: Seq<Seq<char>>)
    requires
        s.to_set() == Set::<Seq<char>>::empty(),
    ensures
        s.len() == 0,
{
    if s.len() > 0 {
        assert(s.to_set().contains(s[0]));
    }
}

/// Does `pat` occur in `s` at position `i`?
pub open spec fn occurs_at(s: Seq<char>, pat: Seq<char>, i: int) -> bool {
    0 <= i && i + pat.len() <= s.len() && s.subrange(i, i + pat.len()) == pat
}

/// The least position at or after `i` where `pat` occurs in `s`.
pub open spec fn first_occ_from(s: Seq<char>, pat: Seq<char>, i: int) -> Option<int>
    decreases s.len() + 1 - i,
{
    if i < 0 || i + pat.len() > s.len() {
        None
    } else if occurs_at(s, pat, i) {
        Some(i)
    } else {
        first_occ_from(s, pat, i + 1)
    }
}

/// The least position where `pat` occurs in `s`.
pub open spec fn first_occ(s: Seq<char>, pat: Seq<char>) -> Option<int> {
    first_occ_from(s, pat, 0)
}

pub proof fn lemma_first_occ_from(s: Seq<char>, pat: Seq<char>, i: int)
    requires
        i >= 0,
    ensures
        match first_occ_from(s, pat, i) {
            Some(p) => occurs_at(s, pat, p) && i <= p && forall|j: int|
                i <= j < p ==> !occurs_at(s, pat, j),
            None => forall|j: int| j >= i ==> !occurs_at(s, pat, j),
        },
    decreases s.len() + 1 - i,
{
    if i + pat.len() > s.len() {
    } else if occurs_at(s, pat, i) {
    } else {
        lemma_first_occ_from(s, pat, i + 1);
    }
}

/// Executable substring search: the least position where `pat` occurs.
pub fn find_sub(s: &str, pat: &str) -> (r: Option<usize>)
    ensures
        match r {
            Some(p) => first_occ(s@, pat@) == Some(p as int),
            None => first_occ(s@, pat@) is None,
        },
{
    let n = s.unicode_len();
    let m = pat.unicode_len();
    if m > n {
        proof {
            lemma_first_occ_from(s@, pat@, 0);
        }
        return None;
    }
    if m == 0 {
        proof {
            assert(s@.subrange(0, 0) =~= pat@);
            assert(occurs_at(s@, pat@, 0));
        }
        return Some(0);
    }
    let mut i: usize = 0;
    while i <= n - m
        invariant
            n == s@.len(),
            m == pat@.len(),
            m <= n,
            0 <= i <= n - m + 1,
            1 <= m,
            forall|j: int| 0 <= j < i ==> !occurs_at(s@, pat@, j),
        decreases n - m + 1 - i,
    {
        if str_eq(s.substring_char(i, i + m), pat) {
            proof {
                assert(occurs_at(s@, pat@, i as int));
                lemma_first_occ_from(s@, pat@, 0);
                if first_occ(s@, pat@) is None {
                    assert(!occurs_at(s@, pat@, i as int));
                }
                let p = first_occ(s@, pat@)->0;
                assert(occurs_at(s@, pat@, p));
                assert(!(p < i) && !(p > i));
            }
            return Some(i);
        }
        assert(!occurs_at(s@, pat@, i as int));
        i = i + 1;
    }
    proof {
        lemma_first_occ_from(s@, pat@, 0);
        if first_occ(s@, pat@) is Some {
            let p = first_occ(s@, pat@)->0;
            assert(occurs_at(s@, pat@, p));
        }
    }
    None
}

/// Insert `x` into a sorted duplicate-free list, keeping it sorted.
pub fn insert_sorted(out: &mut Vec<String>, x: String)
    requires
        sorted_le(str_views(old(out)@)),
        distinct_seq(str_views(old(out)@)),
        !str_views(old(out)@).to_set().contains(x@),
    ensures
        sorted_le(str_views(final (out)@)),
        distinct_seq(str_views(final (out)@)),
        str_views(final (out)@).to_set() == str_views(old(out)@).to_set().insert(x@),
        final (out)@.len() == old(out)@.len() + 1,
{
    let ghost vs = str_views(out@);
    let mut p: usize = 0;
    while p < out.len() && matches!(str_cmp(x.as_str(), out[p].as_str()), Ordering::Greater)
        invariant
            vs == str_views(out@),
            out@ == old(out)@,
            0 <= p <= vs.len(),
            forall|j: int| 0 <= j < p ==> lex_cmp(x@, #[trigger] vs[j]) == Ordering::Greater,
        decreases vs.len() - p,
    {
        p = p + 1;
    }
    let ghost pp = p as int;
    out.insert(p, x);
    proof {
        let nv = str_views(out@);
        assert(nv =~= vs.insert(pp, x@));
        assert forall|j: int| 0 <= j < nv.len() implies nv[j] == (if j < pp {
            vs[j]
        } else if j == pp {
            x@
        } else {
            vs[j - 1]
        }) by {}
        assert forall|i: int, j: int| 0 <= i < j < nv.len() implies lex_le(nv[i], nv[j]) by {
            let a = nv[i];
            let b = nv[j];
            if i < pp && j < pp {
            } else if i < pp && j == pp {
                lemma_lex_antisym(x@, vs[i]);
            } else if i < pp && j > pp {
                assert(lex_le(vs[i], vs[j - 1])) by {
                    if i < j - 1 {
                    } else {
                        assert(vs[i] == vs[j - 1]);
                        lemma_lex_eq(vs[i], vs[j - 1]);
                    }
                }
            } else if i == pp {
                if pp < vs.len() {
                    assert(lex_cmp(x@, vs[pp]) != Ordering::Greater);
                    if j - 1 > pp {
                        lemma_lex_trans(x@, vs[pp], vs[j - 1]);
                    }
                }
            } else {
                if i - 1 < j - 1 {
                } else {
                    lemma_lex_eq(vs[i - 1], vs[j - 1]);
                }
            }
        }
        assert forall|i: int, j: int| 0 <= i < j < nv.len() implies nv[i] != nv[j] by {
            if i == pp {
                assert(vs.to_set().contains(vs[j - 1]));
            } else if j == pp {
                assert(vs.to_set().contains(vs[i]));
            }
        }
        assert forall|k: Seq<char>| #[trigger]
            nv.to_set().contains(k) implies vs.to_set().insert(x@).contains(k) by {
            let i = choose|i: int| 0 <= i < nv.len() && nv[i] == k;
            if i < pp {
                assert(vs[i] == k);
            } else if i > pp {
                assert(vs[i - 1] == k);
            }
        }
        assert forall|k: Seq<char>| #[trigger]
            vs.to_set().insert(x@).contains(k) implies nv.to_set().contains(k) by {
            if k == x@ {
                assert(nv[pp] == k);
            } else {
                let i = choose|i: int| 0 <= i < vs.len() && vs[i] == k;
                if i < pp {
                    assert(nv[i] == k);
                } else {
                    assert(nv[i + 1] == k);
                }
            }
        }
        assert(nv.to_set() =~= vs.to_set().insert(x@));
    }
}

/// `s` with every trailing `c` removed.
pub open spec fn trim_end_spec(s: Seq<char>, c: char) -> Seq<char>
    decreases s.len(),
{
    if s.len() > 0 && s.last() == c {
        trim_end_spec(s.drop_last(), c)
    } else {
        s
    }
}

/// Remove every trailing `c` from `s`.
pub fn trim_end_char(s: &str, c: char) -> (r: String)
    ensures
        r@ == trim_end_spec(s@, c),
{
    let mut e = s.unicode_len();
    proof {
        assert(s@.take(s@.len() as int) =~= s@);
    }
    while e > 0 && s.get_char(e - 1) == c
        invariant
            e <= s@.len(),
            trim_end_spec(s@, c) == trim_end_spec(s@.take(e as int), c),
        decreases e,
    {
        proof {
            assert(s@.take(e as int).drop_last() =~= s@.take(e - 1));
            assert(s@.take(e as int).last() == s@[e - 1]);
        }
        e = e - 1;
    }
    proof {
        if e > 0 {
            assert(s@.take(e as int).last() == s@[e - 1]);
        }
        assert(trim_end_spec(s@.take(e as int), c) == s@.take(e as int));
        assert(s@.subrange(0, e as int) =~= s@.take(e as int));
    }
    String::from_str(s.substring_char(0, e))
}

/// `s` with every leading copy of `p` removed.
pub open spec fn trim_start_spec(s: Seq<char>, p: Seq<char>) -> Seq<char>
    decreases s.len(),
{
    if p.len() > 0 && has_prefix(s, p) {
        trim_start_spec(s.skip(p.len() as int), p)
    } else {
        s
    }
}

/// Remove every leading copy of `p` from `s`.
pub fn trim_start_matches(s: &str, p: &str) -> (r: String)
    ensures
        r@ == trim_start_spec(s@, p@),
{
    let np = p.unicode_len();
    let mut b: usize = 0;
    let n = s.unicode_len();
    if np == 0 {
        return String::from_str(s);
    }
    proof {
        assert(s@.skip(0) =~= s@);
    }
    while np <= n - b && str_eq(s.substring_char(b, b + np), p)
        invariant
            n == s@.len(),
            np == p@.len(),
            np > 0,
            0 <= b <= n,
            trim_start_spec(s@, p@) == trim_start_spec(s@.skip(b as int), p@),
        decreases n - b,
    {
        proof {
            let t = s@.skip(b as int);
            assert(t.subrange(0, np as int) =~= s@.subrange(b as int, (b + np) as int));
            assert(has_prefix(t, p@));
            assert(t.skip(np as int) =~= s@.skip((b + np) as int));
        }
        b = b + np;
    }
    proof {
        let t = s@.skip(b as int);
        if has_prefix(t, p@) {
            assert(t.subrange(0, np as int) =~= s@.subrange(b as int, (b + np) as int));
        }
        assert(trim_start_spec(t, p@) == t);
        assert(s@.subrange(b as int, n as int) =~= s@.skip(b as int));
    }
    String::from_str(s.substring_char(b, n))
}

/// Does `c` occur in `s`?
pub fn str_contains_char(s: &str, c: char) -> (r: bool)
    ensures
        r == s@.contains(c),
{
    let n = s.unicode_len();
    let mut i: usize = 0;
    while i < n
        invariant
            n == s@.len(),
            0 <= i <= n,
            forall|j: int| 0 <= j < i ==> s@[j] != c,
        decreases n - i,
    {
        if s.get_char(i) == c {
            assert(s@[i as int] == c);
            return true;
        }
        i = i + 1;
    }
    false
}

/// The pieces joined with `sep` between consecutive pieces.
pub open spec fn join_spec(ps: Seq<Seq<char>>, sep: Seq<char>) -> Seq<char>
    decreases ps.len(),
{
    if ps.len() == 0 {
        Seq::empty()
    } else if ps.len() == 1 {
        ps[0]
    } else {
        join_spec(ps.drop_last(), sep) + sep + ps.last()
    }
}

/// Join `parts[lo..hi]` with `sep` between consecutive parts.
pub fn join_range(parts: &Vec<String>, lo: usize, hi: usize, sep: &str) -> (r: String)
    requires
        lo <= hi <= parts@.len(),
    ensures
        r@ == join_spec(str_views(parts@).subrange(lo as int, hi as int), sep@),
{
    let ghost ps = str_views(parts@).subrange(lo as int, hi as int);
    let mut r = String::new();
    let mut i: usize = lo;
    proof {
        assert(r@ =~= join_spec(ps.take(0), sep@));
    }
    while i < hi
        invariant
            lo <= i <= hi <= parts@.len(),
            ps == str_views(parts@).subrange(lo as int, hi as int),
            r@ == join_spec(ps.take(i - lo), sep@),
        decreases hi - i,
    {
        proof {
            assert(ps.take(i - lo + 1).drop_last() =~= ps.take(i - lo));
            assert(ps.take(i - lo + 1).last() == ps[i - lo]);
            assert(ps[i - lo] == parts@[i as int]@);
        }
        if i > lo {
            r.append(sep);
        }
        r.append(parts[i].as_str());
        proof {
            if i == lo {
                assert(join_spec(ps.take(1), sep@) == ps[0]) by {
                    assert(ps.take(1).len() == 1);
                    assert(ps.take(1)[0] == ps[0]);
                }
                assert(r@ =~= ps[0]);
            }
        }
        i = i + 1;
    }
    proof {
        assert(ps.take(hi - lo) =~= ps);
    }
    r
}

/// `s` with every path separator replaced by a namespace dot.
pub open spec fn dotted_spec(s: Seq<char>) -> Seq<char> {
    s.map_values(
        |c: char|
            if c == '/' {
                '.'
            } else {
                c
            },
    )
}

/// Replace every `/` in `s` with `.`.
pub fn dotted(s: &str) -> (r: String)
    ensures
        r@ == dotted_spec(s@),
{
    let n = s.unicode_len();
    let mut r = String::new();
    let mut i: usize = 0;
    proof {
        assert(r@ =~= dotted_spec(s@.take(0)));
    }
    while i < n
        invariant
            n == s@.len(),
            0 <= i <= n,
            r@ == dotted_spec(s@.take(i as int)),
        decreases n - i,
    {
        let c = s.get_char(i);
        if c == '/' {
            r.append(".");
            proof {
                reveal_strlit(".");
            }
        } else {
            r.append(s.substring_char(i, i + 1));
        }
        proof {
            assert(s@.subrange(i as int, i + 1) =~= seq![s@[i as int]]);
            assert(r@ =~= dotted_spec(s@.take(i + 1)));
        }
        i = i + 1;
    }
    proof {
        assert(s@.take(n as int) =~= s@);
    }
    r
}

/// `s` with every trailing copy of `p` removed.
pub open spec fn trim_end_matches_spec(s: Seq<char>, p: Seq<char>) -> Seq<char>
    decreases s.len(),
{
    if p.len() > 0 && has_suffix(s, p) {
        trim_end_matches_spec(s.take(s.len() - p.len()), p)
    } else {
        s
    }
}

/// Remove every trailing copy of `p` from `s`.
pub fn trim_end_matches(s: &str, p: &str) -> (r: String)
    ensures
        r@ == trim_end_matches_spec(s@, p@),
{
    let np = p.unicode_len();
    let n = s.unicode_len();
    if np == 0 {
        return String::from_str(s);
    }
    let mut e: usize = n;
    proof {
        assert(s@.take(n as int) =~= s@);
    }
    while np <= e && str_eq(s.substring_char(e - np, e), p)
        invariant
            n == s@.len(),
            np == p@.len(),
            np > 0,
            0 <= e <= n,
            trim_end_matches_spec(s@, p@) == trim_end_matches_spec(s@.take(e as int), p@),
        decreases e,
    {
        proof {
            let t = s@.take(e as int);
            assert(t.subrange(t.len() - np, t.len() as int) =~= s@.subrange(
                e - np,
                e as int,
            ));
            assert(has_suffix(t, p@));
            assert(t.take(t.len() - np) =~= s@.take(e - np));
        }
        e = e - np;
    }
    proof {
        let t = s@.take(e as int);
        if has_suffix(t, p@) {
            assert(t.subrange(t.len() - np, t.len() as int) =~= s@.subrange(e - np, e as int));
        }
        assert(trim_end_matches_spec(t, p@) == t);
        assert(s@.subrange(0, e as int) =~= t);
    }
    String::from_str(s.substring_char(0, e))
}

/// One unfolding step of `lex_cmp` on the suffixes starting at `i`.
proof fn lemma_lex_cmp_skip_unfold(a: Seq<char>, b: Seq<char>, i: int)
    requires
        0 <= i <= a.len(),
        0 <= i <= b.len(),
    ensures
        i < a.len() && i < b.len() && a[i] as int == b[i] as int ==> lex_cmp(
            a.skip(i),
            b.skip(i),
        ) == lex_cmp(a.skip(i + 1), b.skip(i + 1)),
        i < a.len() && i < b.len() && (a[i] as int) < (b[i] as int) ==> lex_cmp(a.skip(i), b.skip(i))
            == Ordering::Less,
        i < a.len() && i < b.len() && (a[i] as int) > (b[i] as int) ==> lex_cmp(a.skip(i), b.skip(i))
            == Ordering::Greater,
        i == a.len() && i == b.len() ==> lex_cmp(a.skip(i), b.skip(i)) == Ordering::Equal,
        i == a.len() && i < b.len() ==> lex_cmp(a.skip(i), b.skip(i)) == Ordering::Less,
        i < a.len() && i == b.len() ==> lex_cmp(a.skip(i), b.skip(i)) == Ordering::Greater,
{
    if i < a.len() && i < b.len() {
        assert(a.skip(i).drop_first() =~= a.skip(i + 1));
        assert(b.skip(i).drop_first() =~= b.skip(i + 1));
    }
}

} // verus!
