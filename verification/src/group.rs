//! Grouping of changed identifiers by namespace prefix, with truncation.
//!
//! Each identifier is split at the first occurrence of one of two well-known
//! package-root markers; the part before the marker keys the group, the part
//! from the marker's root onward is the displayed member.  Identifiers
//! matching neither marker fall into one group keyed by the empty string.
//! Groups come in ascending key order with ascending members, and a display
//! cap limits the total member count across all groups.

use vstd::prelude::*;

verus! {

use crate::strutil::{
    str_views,
    sorted_le,
    distinct_seq,
    lex_lt,
    first_occ,
    lemma_first_occ_from,
    find_sub,
    str_eq,
    insert_sorted,
    lemma_to_set_push,
    lemma_lex_eq,
    lemma_lex_antisym,
    lemma_lex_trans,
    lex_cmp,
    lex_le,
    str_cmp,
};
use core::cmp::Ordering;

/// The two recognized package-root markers.
pub open spec fn org_marker() -> Seq<char> {
    ".org."@
}

pub open spec fn com_marker() -> Seq<char> {
    ".com."@
}

/// The position of the first occurrence of either marker in `c`: the
/// earlier one where both occur.
pub open spec fn marker_pos(c: Seq<char>) -> Option<int> {
    match (first_occ(c, org_marker()), first_occ(c, com_marker())) {
        (Some(p), Some(q)) => Some(
            if p <= q {
                p
            } else {
                q
            },
        ),
        (Some(p), None) => Some(p),
        (None, Some(q)) => Some(q),
        (None, None) => None,
    }
}

/// The (group key, displayed member) pair of one identifier: split at the
/// first occurrence of either marker, the key excluding the separating dot;
/// with no marker, the empty key and the whole identifier.
pub open spec fn split_class_spec(c: Seq<char>) -> (Seq<char>, Seq<char>) {
    match marker_pos(c) {
        Some(p) => (c.take(p), c.skip(p + 1)),
        None => (Seq::empty(), c),
    }
}

/// Executable split of one identifier.
pub fn split_class(c: &str) -> (r: (String, String))
    ensures
        (r.0@, r.1@) == split_class_spec(c@),
{
    let n = c.unicode_len();
    let at_org = find_sub(c, ".org.");
    let at_com = find_sub(c, ".com.");
    let pos: Option<usize> = match (at_org, at_com) {
        (Option::Some(p), Option::Some(q)) => Option::Some(
            if p <= q {
                p
            } else {
                q
            },
        ),
        (Option::Some(p), Option::None) => Option::Some(p),
        (Option::None, Option::Some(q)) => Option::Some(q),
        (Option::None, Option::None) => Option::None,
    };
    match pos {
        Option::Some(p) => {
            proof {
                lemma_first_occ_from(c@, ".org."@, 0);
                lemma_first_occ_from(c@, ".com."@, 0);
                reveal_strlit(".org.");
                reveal_strlit(".com.");
                assert(c@.subrange(0, p as int) =~= c@.take(p as int));
                assert(c@.subrange(p + 1, n as int) =~= c@.skip(p + 1));
            }
            (
                String::from_str(c.substring_char(0, p)),
                String::from_str(c.substring_char(p + 1, n)),
            )
        },
        Option::None => {
            let e = String::new();
            proof {
                assert(e@ =~= Seq::<char>::empty());
            }
            (e, String::from_str(c))
        },
    }
}

/// One group of the report.
pub struct Group {
    pub key: String,
    pub members: Vec<String>,
}

/// The view of one group: key characters and member character sequences.
pub open spec fn group_view(g: Group) -> (Seq<char>, Seq<Seq<char>>) {
    (g.key@, str_views(g.members@))
}

pub open spec fn group_views(gs: Seq<Group>) -> Seq<(Seq<char>, Seq<Seq<char>>)> {
    gs.map_values(|g: Group| group_view(g))
}

/// Total member count across the groups.
pub open spec fn total_members(gvs: Seq<(Seq<char>, Seq<Seq<char>>)>) -> int
    decreases gvs.len(),
{
    if gvs.len() == 0 {
        0
    } else {
        gvs[0].1.len() + total_members(gvs.drop_first())
    }
}

pub proof fn lemma_total_members_nonneg(gvs: Seq<(Seq<char>, Seq<Seq<char>>)>)
    ensures
        total_members(gvs) >= 0,
    decreases gvs.len(),
{
    if gvs.len() > 0 {
        lemma_total_members_nonneg(gvs.drop_first());
    }
}

/// The split pairs of a list of identifiers.
pub open spec fn pair_views(ps: Seq<(String, String)>) -> Seq<(Seq<char>, Seq<char>)> {
    ps.map_values(|p: (String, String)| (p.0@, p.1@))
}

/// Split every identifier.
fn class_pairs(classes: &Vec<String>) -> (r: Vec<(String, String)>)
    ensures
        r@.len() == classes@.len(),
        forall|j: int|
            0 <= j < r@.len() ==> pair_views(r@)[j] == split_class_spec(
                str_views(classes@)[j],
            ),
{
    let mut r: Vec<(String, String)> = Vec::new();
    let mut i: usize = 0;
    while i < classes.len()
        invariant
            0 <= i <= classes@.len(),
            r@.len() == i,
            forall|j: int|
                0 <= j < i ==> pair_views(r@)[j] == split_class_spec(str_views(classes@)[j]),
        decreases classes@.len() - i,
    {
        let p = split_class(classes[i].as_str());
        let ghost old_r = r@;
        r.push(p);
        proof {
            assert(str_views(classes@)[i as int] == classes@[i as int]@);
            assert(pair_views(r@)[i as int] == (r@[i as int].0@, r@[i as int].1@));
            assert forall|j: int| 0 <= j < i implies pair_views(r@)[j] == split_class_spec(
                str_views(classes@)[j],
            ) by {
                assert(r@[j] == old_r[j]);
                assert(pair_views(old_r)[j] == (old_r[j].0@, old_r[j].1@));
            }
        }
        i = i + 1;
    }
    r
}

/// The distinct keys among the pairs, ascending.
fn keys_of(pairs: &Vec<(String, String)>) -> (r: Vec<String>)
    ensures
        sorted_le(str_views(r@)),
        distinct_seq(str_views(r@)),
        forall|k: Seq<char>|
            str_views(r@).to_set().contains(k) <==> exists|j: int|
                0 <= j < pairs@.len() && (#[trigger] pair_views(pairs@)[j]).0 == k,
{
    let ghost pv = pair_views(pairs@);
    let mut r: Vec<String> = Vec::new();
    let mut i: usize = 0;
    while i < pairs.len()
        invariant
            pv == pair_views(pairs@),
            0 <= i <= pv.len(),
            sorted_le(str_views(r@)),
            distinct_seq(str_views(r@)),
            forall|k: Seq<char>|
                str_views(r@).to_set().contains(k) <==> exists|j: int|
                    0 <= j < i && (#[trigger] pv[j]).0 == k,
        decreases pv.len() - i,
    {
        let k = pairs[i].0.clone();
        assert(k@ == pv[i as int].0);
        let mut found = false;
        let mut t: usize = 0;
        while t < r.len()
            invariant
                0 <= t <= r@.len(),
                k@ == pv[i as int].0,
                found <==> exists|q: int| 0 <= q < t && str_views(r@)[q] == k@,
                found ==> str_views(r@).to_set().contains(k@),
            decreases r@.len() - t,
        {
            if str_eq(r[t].as_str(), k.as_str()) {
                found = true;
                assert(str_views(r@)[t as int] == k@);
            }
            t = t + 1;
        }
        let ghost old_set = str_views(r@).to_set();
        if !found {
            proof {
                assert(!str_views(r@).to_set().contains(k@)) by {
                    if str_views(r@).to_set().contains(k@) {
                        let q = choose|q: int|
                            0 <= q < r@.len() && #[trigger] str_views(r@)[q] == k@;
                    }
                }
            }
            insert_sorted(&mut r, k);
            proof {
                assert(str_views(r@).to_set() =~= old_set.insert(pv[i as int].0));
            }
        }
        proof {
            assert forall|k2: Seq<char>|
                str_views(r@).to_set().contains(k2) <==> exists|j: int|
                    0 <= j < i + 1 && (#[trigger] pv[j]).0 == k2 by {
                if str_views(r@).to_set().contains(k2) {
                    if k2 == pv[i as int].0 {
                        assert(pv[i as int].0 == k2);
                    } else {
                        assert(old_set.contains(k2));
                    }
                }
                if exists|j: int| 0 <= j < i + 1 && (#[trigger] pv[j]).0 == k2 {
                    let j = choose|j: int| 0 <= j < i + 1 && (#[trigger] pv[j]).0 == k2;
                    if j < i {
                        assert(old_set.contains(k2));
                    }
                }
            }
        }
        i = i + 1;
    }
    r
}

/// Members of the group keyed `k`, in pair order.
pub open spec fn members_spec(pv: Seq<(Seq<char>, Seq<char>)>, k: Seq<char>) -> Seq<Seq<char>>
    decreases pv.len(),
{
    if pv.len() == 0 {
        Seq::empty()
    } else {
        let r = members_spec(pv.drop_last(), k);
        if pv.last().0 == k {
            r.push(pv.last().1)
        } else {
            r
        }
    }
}

/// Membership and occupancy of `members_spec`.
pub proof fn lemma_members_spec(pv: Seq<(Seq<char>, Seq<char>)>, k: Seq<char>)
    ensures
        forall|s: Seq<char>|
            members_spec(pv, k).contains(s) <==> exists|j: int|
                0 <= j < pv.len() && #[trigger] pv[j] == (k, s),
        members_spec(pv, k).len() > 0 <==> exists|j: int|
            0 <= j < pv.len() && (#[trigger] pv[j]).0 == k,
    decreases pv.len(),
{
    if pv.len() > 0 {
        let hd = pv.drop_last();
        lemma_members_spec(hd, k);
        assert forall|s: Seq<char>|
            members_spec(pv, k).contains(s) <==> exists|j: int|
                0 <= j < pv.len() && #[trigger] pv[j] == (k, s) by {
            if members_spec(pv, k).contains(s) {
                let m = members_spec(hd, k);
                if pv.last().0 == k && s == pv.last().1 {
                    assert(pv[pv.len() - 1] == (k, s));
                } else {
                    let q = choose|q: int|
                        0 <= q < members_spec(pv, k).len() && members_spec(pv, k)[q] == s;
                    if pv.last().0 == k {
                        assert(members_spec(pv, k) == m.push(pv.last().1));
                        assert(m.contains(s)) by {
                            assert(members_spec(pv, k)[q] == m[q]);
                        }
                    } else {
                        assert(m.contains(s));
                    }
                    let j = choose|j: int| 0 <= j < hd.len() && #[trigger] hd[j] == (k, s);
                    assert(pv[j] == (k, s));
                }
            }
            if exists|j: int| 0 <= j < pv.len() && #[trigger] pv[j] == (k, s) {
                let j = choose|j: int| 0 <= j < pv.len() && #[trigger] pv[j] == (k, s);
                if j == pv.len() - 1 {
                    assert(members_spec(pv, k).last() == s);
                } else {
                    assert(hd[j] == (k, s));
                    assert(members_spec(hd, k).contains(s));
                    let q = choose|q: int|
                        0 <= q < members_spec(hd, k).len() && members_spec(hd, k)[q] == s;
                    if pv.last().0 == k {
                        assert(members_spec(pv, k)[q] == s);
                    }
                }
            }
        }
        assert forall|j: int| 0 <= j < pv.len() && (#[trigger] pv[j]).0 == k implies members_spec(
            pv,
            k,
        ).len() > 0 by {
            if j < pv.len() - 1 {
                assert(hd[j].0 == k);
            }
        }
        if members_spec(pv, k).len() > 0 && pv.last().0 != k {
            assert(members_spec(hd, k).len() > 0);
            let j = choose|j: int| 0 <= j < hd.len() && (#[trigger] hd[j]).0 == k;
            assert(pv[j].0 == k);
        }
        if pv.last().0 == k {
            assert(pv[pv.len() - 1].0 == k);
        }
    }
}

/// Collect the members of the group keyed `k`, in pair order.
fn members_for(pairs: &Vec<(String, String)>, k: &str) -> (r: Vec<String>)
    ensures
        str_views(r@) == members_spec(pair_views(pairs@), k@),
{
    let ghost pv = pair_views(pairs@);
    let mut r: Vec<String> = Vec::new();
    let mut i: usize = 0;
    proof {
        assert(str_views(r@) =~= members_spec(pv.take(0), k@));
    }
    while i < pairs.len()
        invariant
            pv == pair_views(pairs@),
            0 <= i <= pv.len(),
            str_views(r@) == members_spec(pv.take(i as int), k@),
        decreases pv.len() - i,
    {
        proof {
            assert(pv.take(i + 1).drop_last() =~= pv.take(i as int));
            assert(pv.take(i + 1).last() == pv[i as int]);
        }
        let ghost old_r = r@;
        if str_eq(pairs[i].0.as_str(), k) {
            r.push(pairs[i].1.clone());
            proof {
                assert(str_views(r@) =~= str_views(old_r).push(pv[i as int].1));
            }
        }
        i = i + 1;
    }
    proof {
        assert(pv.take(pv.len() as int) =~= pv);
    }
    r
}

/// Sort a member list ascending, keeping its length and element set.
fn sort_members(v: Vec<String>) -> (r: Vec<String>)
    ensures
        sorted_le(str_views(r@)),
        r@.len() == v@.len(),
        str_views(r@).to_set() == str_views(v@).to_set(),
{
    let ghost vs = str_views(v@);
    let mut r: Vec<String> = Vec::new();
    let mut i: usize = 0;
    proof {
        assert(str_views(r@).to_set() =~= vs.take(0).to_set());
    }
    while i < v.len()
        invariant
            vs == str_views(v@),
            0 <= i <= vs.len(),
            sorted_le(str_views(r@)),
            str_views(r@).to_set() == vs.take(i as int).to_set(),
            r@.len() == i,
        decreases vs.len() - i,
    {
        let x = v[i].clone();
        assert(x@ == vs[i as int]);
        insert_sorted_any(&mut r, x);
        proof {
            lemma_to_set_push(vs.take(i as int), vs[i as int]);
            assert(vs.take(i + 1) =~= vs.take(i as int).push(vs[i as int]));
        }
        i = i + 1;
    }
    proof {
        assert(vs.take(vs.len() as int) =~= vs);
    }
    r
}

/// Insert `x` into a sorted list, keeping it sorted; duplicates allowed.
fn insert_sorted_any(out: &mut Vec<String>, x: String)
    requires
        sorted_le(str_views(old(out)@)),
    ensures
        sorted_le(str_views(final (out)@)),
        str_views(final (out)@).to_set() == str_views(old(out)@).to_set().insert(x@),
        final (out)@.len() == old(out)@.len() + 1,
{
    let ghost vs = str_views(out@);
    let mut p: usize = 0;
    while p < out.len() && matches!(str_cmp(x.as_str(), out[p].as_str()), Ordering::Greater)
        invariant
            vs == str_views(out@),
            out@ == old(out)@,
            0 <= p <= vs.len(),
            forall|j: int| 0 <= j < p ==> lex_cmp(x@, #[trigger] vs[j]) == Ordering::Greater,
        decreases vs.len() - p,
    {
        p = p + 1;
    }
    let ghost pp = p as int;
    out.insert(p, x);
    proof {
        let nv = str_views(out@);
        assert(nv =~= vs.insert(pp, x@));
        assert forall|i: int, j: int| 0 <= i < j < nv.len() implies lex_le(nv[i], nv[j]) by {
            if i < pp && j == pp {
                lemma_lex_antisym(x@, vs[i]);
            } else if i < pp && j > pp {
                assert(lex_le(vs[i], vs[j - 1])) by {
                    if i < j - 1 {
                    } else {
                        lemma_lex_eq(vs[i], vs[j - 1]);
                    }
                }
            } else if i == pp {
                if pp < vs.len() {
                    assert(lex_cmp(x@, vs[pp]) != Ordering::Greater);
                    if j - 1 > pp {
                        lemma_lex_trans(x@, vs[pp], vs[j - 1]);
                    }
                }
            } else if i > pp {
                if i - 1 < j - 1 {
                } else {
                    lemma_lex_eq(vs[i - 1], vs[j - 1]);
                }
            }
        }
        assert forall|k: Seq<char>| #[trigger]
            nv.to_set().contains(k) implies vs.to_set().insert(x@).contains(k) by {
            let i = choose|i: int| 0 <= i < nv.len() && nv[i] == k;
            if i < pp {
                assert(vs[i] == k);
            } else if i > pp {
                assert(vs[i - 1] == k);
            }
        }
        assert forall|k: Seq<char>| #[trigger]
            vs.to_set().insert(x@).contains(k) implies nv.to_set().contains(k) by {
            if k == x@ {
                assert(nv[pp] == k);
            } else {
                let i = choose|i: int| 0 <= i < vs.len() && vs[i] == k;
                if i < pp {
                    assert(nv[i] == k);
                } else {
                    assert(nv[i + 1] == k);
                }
            }
        }
        assert(nv.to_set() =~= vs.to_set().insert(x@));
    }
}

/// Group the identifiers by their namespace key.  Group keys ascend
/// strictly; each group is non-empty with ascending members; a (key, member)
/// pair appears exactly when some identifier splits into it; and the groups
/// hold as many members as there are identifiers.
#[verifier::rlimit(100)]
pub fn group_classes(classes: &Vec<String>) -> (r: Vec<Group>)
    ensures
        (forall|g1: int, g2: int|
            0 <= g1 < g2 < r@.len() ==> lex_lt(
                (#[trigger] group_views(r@)[g1]).0,
                (#[trigger] group_views(r@)[g2]).0,
            )),
        forall|g: int|
            0 <= g < r@.len() ==> (#[trigger] group_views(r@)[g]).1.len() > 0 && sorted_le(
                group_views(r@)[g].1,
            ),
        forall|g: int, m: int|
            0 <= g < r@.len() && 0 <= m < group_views(r@)[g].1.len() ==> exists|j: int|
                0 <= j < classes@.len() && split_class_spec(#[trigger] str_views(classes@)[j]) == (
                    group_views(r@)[g].0,
                    #[trigger] group_views(r@)[g].1[m],
                ),
        forall|j: int|
            0 <= j < classes@.len() ==> exists|g: int, m: int|
                0 <= g < r@.len() && 0 <= m < group_views(r@)[g].1.len() && (
                group_views(r@)[g].0,
                #[trigger] group_views(r@)[g].1[m],
                ) == split_class_spec(#[trigger] str_views(classes@)[j]),
        total_members(group_views(r@)) == classes@.len(),
{
    let pairs = class_pairs(classes);
    let keys = keys_of(&pairs);
    let ghost pv = pair_views(pairs@);
    let ghost kv = str_views(keys@);
    let mut out: Vec<Group> = Vec::new();
    let mut g: usize = 0;
    while g < keys.len()
        invariant
            pv == pair_views(pairs@),
            kv == str_views(keys@),
            sorted_le(kv),
            distinct_seq(kv),
            0 <= g <= kv.len(),
            out@.len() == g,
            forall|t: int|
                0 <= t < g ==> (#[trigger] group_views(out@)[t]).0 == kv[t] && sorted_le(
                    group_views(out@)[t].1,
                ) && group_views(out@)[t].1.len() == members_spec(pv, kv[t]).len() && group_views(
                    out@,
                )[t].1.to_set() == members_spec(pv, kv[t]).to_set(),
        decreases kv.len() - g,
    {
        proof {
            assert(kv[g as int] == keys@[g as int]@);
        }
        let raw = members_for(&pairs, keys[g].as_str());
        proof {
            assert(str_views(raw@) == members_spec(pv, kv[g as int]));
        }
        let ms = sort_members(raw);
        let ghost msv = str_views(ms@);
        let key = keys[g].clone();
        let ghost old_out = out@;
        out.push(Group { key, members: ms });
        proof {
            let gi = g as int;
            assert forall|t: int|
                0 <= t < gi + 1 implies (#[trigger] group_views(out@)[t]).0 == kv[t] && sorted_le(
                group_views(out@)[t].1,
            ) && group_views(out@)[t].1.len() == members_spec(pv, kv[t]).len() && group_views(
                out@,
            )[t].1.to_set() == members_spec(pv, kv[t]).to_set() by {
                if t < gi {
                    assert(out@[t] == old_out[t]);
                    assert(group_views(out@)[t] == group_view(old_out[t]));
                    assert(group_views(old_out)[t] == group_view(old_out[t]));
                } else {
                    assert(group_views(out@)[gi] == group_view(out@[gi]));
                    assert(group_views(out@)[gi].1 == msv);
                }
            }
        }
        g = g + 1;
    }
    proof {
        lemma_group_post(out@, keys@, pairs@, classes@);
    }
    out
}

/// From the loop invariants of `group_classes` to its public contract.
proof fn lemma_group_post(
    out: Seq<Group>,
    keys: Seq<String>,
    pairs: Seq<(String, String)>,
    classes: Seq<String>,
)
    requires
        pairs.len() == classes.len(),
        forall|j: int|
            0 <= j < pairs.len() ==> pair_views(pairs)[j] == split_class_spec(
                str_views(classes)[j],
            ),
        sorted_le(str_views(keys)),
        distinct_seq(str_views(keys)),
        forall|k: Seq<char>|
            str_views(keys).to_set().contains(k) <==> exists|j: int|
                0 <= j < pairs.len() && (#[trigger] pair_views(pairs)[j]).0 == k,
        out.len() == keys.len(),
        forall|t: int|
            0 <= t < out.len() ==> (#[trigger] group_views(out)[t]).0 == str_views(keys)[t]
                && sorted_le(group_views(out)[t].1) && group_views(out)[t].1.len() == members_spec(
                pair_views(pairs),
                str_views(keys)[t],
            ).len() && group_views(out)[t].1.to_set() == members_spec(
                pair_views(pairs),
                str_views(keys)[t],
            ).to_set(),
    ensures
        (forall|g1: int, g2: int|
            0 <= g1 < g2 < out.len() ==> lex_lt(
                (#[trigger] group_views(out)[g1]).0,
                (#[trigger] group_views(out)[g2]).0,
            )),
        forall|g: int|
            0 <= g < out.len() ==> (#[trigger] group_views(out)[g]).1.len() > 0 && sorted_le(
                group_views(out)[g].1,
            ),
        forall|g: int, m: int|
            0 <= g < out.len() && 0 <= m < group_views(out)[g].1.len() ==> exists|j: int|
                0 <= j < classes.len() && split_class_spec(#[trigger] str_views(classes)[j]) == (
                group_views(out)[g].0,
                #[trigger] group_views(out)[g].1[m],
                ),
        forall|j: int|
            0 <= j < classes.len() ==> exists|g: int, m: int|
                0 <= g < out.len() && 0 <= m < group_views(out)[g].1.len() && (
                group_views(out)[g].0,
                #[trigger] group_views(out)[g].1[m],
                ) == split_class_spec(#[trigger] str_views(classes)[j]),
        total_members(group_views(out)) == classes.len(),
{
    let pv = pair_views(pairs);
    let kv = str_views(keys);
    let gv = group_views(out);
    assert forall|g1: int, g2: int| 0 <= g1 < g2 < out.len() implies lex_lt(
        (#[trigger] gv[g1]).0,
        (#[trigger] gv[g2]).0,
    ) by {
        assert(lex_le(kv[g1], kv[g2]) && kv[g1] != kv[g2]);
        lemma_lex_eq(kv[g1], kv[g2]);
    }
    assert forall|g: int| 0 <= g < out.len() implies (#[trigger] gv[g]).1.len() > 0 && sorted_le(
        gv[g].1,
    ) by {
        assert(kv.to_set().contains(kv[g]));
        lemma_members_spec(pv, kv[g]);
    }
    assert forall|g: int, m: int|
        0 <= g < out.len() && 0 <= m < gv[g].1.len() implies exists|j: int|
        0 <= j < classes.len() && split_class_spec(#[trigger] str_views(classes)[j]) == (
        gv[g].0,
        #[trigger] gv[g].1[m],
        ) by {
        lemma_members_spec(pv, kv[g]);
        assert(gv[g].1.to_set().contains(gv[g].1[m]));
        assert(members_spec(pv, kv[g]).to_set().contains(gv[g].1[m]));
        assert(members_spec(pv, kv[g]).contains(gv[g].1[m]));
        let j = choose|j: int| 0 <= j < pv.len() && #[trigger] pv[j] == (kv[g], gv[g].1[m]);
        assert(split_class_spec(str_views(classes)[j]) == (gv[g].0, gv[g].1[m]));
    }
    assert forall|j: int| 0 <= j < classes.len() implies exists|g: int, m: int|
        0 <= g < out.len() && 0 <= m < gv[g].1.len() && (gv[g].0, #[trigger] gv[g].1[m])
            == split_class_spec(#[trigger] str_views(classes)[j]) by {
        let k = pv[j].0;
        assert(kv.to_set().contains(k));
        let g = choose|g: int| 0 <= g < kv.len() && kv[g] == k;
        lemma_members_spec(pv, k);
        assert(pv[j] == (k, pv[j].1));
        assert(members_spec(pv, k).contains(pv[j].1));
        assert(gv[g].1.to_set().contains(pv[j].1));
        assert(gv[g].1.contains(pv[j].1));
        let m = choose|m: int| 0 <= m < gv[g].1.len() && gv[g].1[m] == pv[j].1;
        assert((gv[g].0, gv[g].1[m]) == split_class_spec(str_views(classes)[j]));
    }
    lemma_group_total(out, keys, pv);
}

/// The groups together hold one member per pair.
proof fn lemma_group_total(out: Seq<Group>, keys: Seq<String>, pv: Seq<(Seq<char>, Seq<char>)>)
    requires
        out.len() == keys.len(),
        distinct_seq(str_views(keys)),
        forall|k: Seq<char>|
            str_views(keys).to_set().contains(k) <==> exists|j: int|
                0 <= j < pv.len() && (#[trigger] pv[j]).0 == k,
        forall|t: int|
            0 <= t < out.len() ==> (#[trigger] group_views(out)[t]).0 == str_views(keys)[t]
                && group_views(out)[t].1.len() == members_spec(pv, str_views(keys)[t]).len(),
    ensures
        total_members(group_views(out)) == pv.len(),
{
    assert forall|j: int| 0 <= j < pv.len() implies str_views(keys).to_set().contains(
        (#[trigger] pv[j]).0,
    ) by {
        assert(pv[j].0 == pv[j].0);
    }
    lemma_sum_members(str_views(keys), pv);
    lemma_total_eq(group_views(out), str_views(keys), pv);
}

/// Sum of per-key member counts over a key list.
spec fn sum_members(ks: Seq<Seq<char>>, pv: Seq<(Seq<char>, Seq<char>)>) -> int
    decreases ks.len(),
{
    if ks.len() == 0 {
        0
    } else {
        members_spec(pv, ks[0]).len() + sum_members(ks.drop_first(), pv)
    }
}

proof fn lemma_total_eq(
    gvs: Seq<(Seq<char>, Seq<Seq<char>>)>,
    ks: Seq<Seq<char>>,
    pv: Seq<(Seq<char>, Seq<char>)>,
)
    requires
        gvs.len() == ks.len(),
        forall|t: int|
            0 <= t < gvs.len() ==> (#[trigger] gvs[t]).1.len() == members_spec(pv, ks[t]).len(),
    ensures
        total_members(gvs) == sum_members(ks, pv),
    decreases gvs.len(),
{
    if gvs.len() > 0 {
        assert forall|t: int|
            0 <= t < gvs.drop_first().len() implies (#[trigger] gvs.drop_first()[t]).1.len()
            == members_spec(pv, ks.drop_first()[t]).len() by {
            assert(gvs.drop_first()[t] == gvs[t + 1]);
            assert(ks.drop_first()[t] == ks[t + 1]);
        }
        lemma_total_eq(gvs.drop_first(), ks.drop_first(), pv);
        assert(gvs[0].1.len() == members_spec(pv, ks[0]).len());
    }
}

/// Number of occurrences of `k` in the key list.
spec fn key_count(ks: Seq<Seq<char>>, k: Seq<char>) -> int
    decreases ks.len(),
{
    if ks.len() == 0 {
        0
    } else {
        (if ks[0] == k {
            1int
        } else {
            0int
        }) + key_count(ks.drop_first(), k)
    }
}

proof fn lemma_key_count(ks: Seq<Seq<char>>, k: Seq<char>)
    requires
        distinct_seq(ks),
    ensures
        ks.to_set().contains(k) ==> key_count(ks, k) == 1,
        !ks.to_set().contains(k) ==> key_count(ks, k) == 0,
    decreases ks.len(),
{
    if ks.len() > 0 {
        assert forall|i: int, j: int|
            0 <= i < j < ks.drop_first().len() implies #[trigger] ks.drop_first()[i]
            != #[trigger] ks.drop_first()[j] by {
            assert(ks.drop_first()[i] == ks[i + 1] && ks.drop_first()[j] == ks[j + 1]);
        }
        lemma_key_count(ks.drop_first(), k);
        if ks[0] == k {
            assert(!ks.drop_first().to_set().contains(k)) by {
                if ks.drop_first().to_set().contains(k) {
                    let i = choose|i: int|
                        0 <= i < ks.drop_first().len() && ks.drop_first()[i] == k;
                    assert(ks[i + 1] == ks[0]);
                }
            }
            assert(ks.to_set().contains(k));
        } else {
            assert(ks.to_set().contains(k) <==> ks.drop_first().to_set().contains(k)) by {
                if ks.to_set().contains(k) {
                    let i = choose|i: int| 0 <= i < ks.len() && ks[i] == k;
                    assert(ks.drop_first()[i - 1] == k);
                }
                if ks.drop_first().to_set().contains(k) {
                    let i = choose|i: int|
                        0 <= i < ks.drop_first().len() && ks.drop_first()[i] == k;
                    assert(ks[i + 1] == k);
                }
            }
        }
    }
}

/// Each pair lands in exactly one key's member list.
proof fn lemma_sum_members(ks: Seq<Seq<char>>, pv: Seq<(Seq<char>, Seq<char>)>)
    requires
        distinct_seq(ks),
        forall|j: int| 0 <= j < pv.len() ==> ks.to_set().contains((#[trigger] pv[j]).0),
    ensures
        sum_members(ks, pv) == pv.len(),
    decreases pv.len(),
{
    if pv.len() == 0 {
        lemma_sum_members_empty(ks, pv);
    } else {
        let hd = pv.drop_last();
        let x = pv.last();
        lemma_sum_members_step(ks, pv);
        assert(ks.to_set().contains(x.0)) by {
            assert(pv[pv.len() - 1].0 == x.0);
        }
        lemma_key_count(ks, x.0);
        assert forall|j: int| 0 <= j < hd.len() implies ks.to_set().contains(
            (#[trigger] hd[j]).0,
        ) by {
            assert(hd[j] == pv[j]);
        }
        lemma_sum_members(ks, hd);
    }
}

proof fn lemma_sum_members_empty(ks: Seq<Seq<char>>, pv: Seq<(Seq<char>, Seq<char>)>)
    requires
        pv.len() == 0,
    ensures
        sum_members(ks, pv) == 0,
    decreases ks.len(),
{
    if ks.len() > 0 {
        lemma_sum_members_empty(ks.drop_first(), pv);
    }
}

/// Removing the last pair lowers by one the count of its key and no other.
proof fn lemma_sum_members_step(ks: Seq<Seq<char>>, pv: Seq<(Seq<char>, Seq<char>)>)
    requires
        pv.len() > 0,
    ensures
        sum_members(ks, pv) == sum_members(ks, pv.drop_last()) + key_count(ks, pv.last().0),
    decreases ks.len(),
{
    if ks.len() > 0 {
        lemma_sum_members_step(ks.drop_first(), pv);
    }
}

/// The groups remaining under a display budget: whole groups while the
/// budget lasts, then one cut group, then nothing.
pub open spec fn truncate_spec(gvs: Seq<(Seq<char>, Seq<Seq<char>>)>, budget: int) -> Seq<
    (Seq<char>, Seq<Seq<char>>),
>
    decreases gvs.len(),
{
    if gvs.len() == 0 || budget <= 0 {
        Seq::empty()
    } else {
        let take = if gvs[0].1.len() <= budget {
            gvs[0].1.len() as int
        } else {
            budget
        };
        seq![(gvs[0].0, gvs[0].1.take(take))] + truncate_spec(gvs.drop_first(), budget - take)
    }
}

/// The member count that survives a budget.
pub proof fn lemma_truncate_total(gvs: Seq<(Seq<char>, Seq<Seq<char>>)>, budget: int)
    requires
        budget >= 0,
    ensures
        total_members(truncate_spec(gvs, budget)) == if total_members(gvs) <= budget {
            total_members(gvs)
        } else {
            budget
        },
    decreases gvs.len(),
{
    lemma_total_members_nonneg(gvs);
    if gvs.len() > 0 && budget > 0 {
        lemma_total_members_nonneg(gvs.drop_first());
        let take = if gvs[0].1.len() <= budget {
            gvs[0].1.len() as int
        } else {
            budget
        };
        lemma_truncate_total(gvs.drop_first(), budget - take);
        let t = truncate_spec(gvs, budget);
        assert(t.drop_first() =~= truncate_spec(gvs.drop_first(), budget - take));
        assert(t[0].1.len() == take);
    }
}

/// Cut the grouped report to at most `limit` members overall, dropping what
/// the cap excludes; returns the cut groups and how many members remain
/// shown, which is the smaller of the cap and the total member count.
pub fn truncate_groups(gs: Vec<Group>, limit: usize) -> (r: (Vec<Group>, usize))
    ensures
        group_views(r.0@) == truncate_spec(group_views(gs@), limit as int),
        r.1 as int == total_members(truncate_spec(group_views(gs@), limit as int)),
        r.1 as int == (if total_members(group_views(gs@)) <= limit as int {
            total_members(group_views(gs@))
        } else {
            limit as int
        }),
        r.1 <= limit,
{
    let ghost gvs = group_views(gs@);
    let mut rest = gs;
    let mut out: Vec<Group> = Vec::new();
    let mut budget: usize = limit;
    proof {
        lemma_truncate_total(gvs, limit as int);
    }
    while rest.len() > 0 && budget > 0
        invariant
            0 <= budget <= limit,
            truncate_spec(gvs, limit as int) == group_views(out@) + truncate_spec(
                group_views(rest@),
                budget as int,
            ),
            limit - budget == total_members(group_views(out@)),
        decreases rest@.len(),
    {
        let ghost rv = group_views(rest@);
        let mut g = rest.remove(0);
        proof {
            assert(group_views(rest@) =~= rv.drop_first());
            assert(rv[0] == group_view(g));
        }
        let take = if g.members.len() <= budget {
            g.members.len()
        } else {
            budget
        };
        let ghost old_members = g.members@;
        g.members.truncate(take);
        proof {
            assert(str_views(g.members@) =~= str_views(old_members).take(take as int));
        }
        let ghost old_out = out@;
        out.push(g);
        proof {
            assert(group_views(out@) =~= group_views(old_out).push(
                (rv[0].0, rv[0].1.take(take as int)),
            ));
            lemma_total_push(old_out, out@[out@.len() - 1]);
            assert(truncate_spec(rv, budget as int).drop_first() =~= truncate_spec(
                rv.drop_first(),
                budget as int - take as int,
            ));
            assert(group_views(old_out) + truncate_spec(rv, budget as int) =~= group_views(out@)
                + truncate_spec(rv.drop_first(), budget as int - take as int));
        }
        budget = budget - take;
    }
    proof {
        if rest@.len() == 0 {
            assert(truncate_spec(group_views(rest@), budget as int) =~= Seq::<
                (Seq<char>, Seq<Seq<char>>),
            >::empty());
        } else {
            assert(truncate_spec(group_views(rest@), budget as int) =~= Seq::<
                (Seq<char>, Seq<Seq<char>>),
            >::empty());
        }
        assert(truncate_spec(gvs, limit as int) =~= group_views(out@));
    }
    (out, limit - budget)
}

/// Appending one group adds its member count to the total.
proof fn lemma_total_push(gs: Seq<Group>, g: Group)
    ensures
        total_members(group_views(gs.push(g))) == total_members(group_views(gs)) + group_view(
            g,
        ).1.len(),
    decreases gs.len(),
{
    if gs.len() == 0 {
        assert(group_views(gs.push(g)).drop_first() =~= group_views(gs));
        assert(group_views(gs) =~= Seq::<(Seq<char>, Seq<Seq<char>>)>::empty());
    } else {
        lemma_total_push(gs.drop_first(), g);
        assert(gs.push(g).drop_first() =~= gs.drop_first().push(g));
        assert(group_views(gs.push(g)).drop_first() =~= group_views(gs.drop_first().push(g)));
        assert(group_views(gs).drop_first() =~= group_views(gs.drop_first()));
        assert(group_views(gs.push(g))[0] == group_views(gs)[0]);
    }
}

} // verus!
