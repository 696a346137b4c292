//! Set difference of two release indices.
//!
//! For every identifier of the newer index: absent from the older index it is
//! *added*, present with another fingerprint it is *modified*.  Every
//! identifier of the older index absent from the newer one is *removed*.  The
//! three result lists are each sorted ascending and duplicate-free.

use vstd::prelude::*;

verus! {

use core::cmp::Ordering;
use crate::index::{ReleaseIndex, map_of, lemma_map_of};
use crate::strutil::{
    str_views,
    sorted_le,
    distinct_seq,
    insert_sorted,
    lemma_to_set_push,
    lemma_empty_set_seq,
};

/// Identifiers of `n` that are not in `o`.
pub open spec fn added_keys(o: Map<Seq<char>, u64>, n: Map<Seq<char>, u64>) -> Set<Seq<char>> {
    n.dom().difference(o.dom())
}

/// Identifiers of `o` that are not in `n`.
pub open spec fn removed_keys(o: Map<Seq<char>, u64>, n: Map<Seq<char>, u64>) -> Set<Seq<char>> {
    o.dom().difference(n.dom())
}

/// Identifiers present in both with different fingerprints.
pub open spec fn modified_keys(o: Map<Seq<char>, u64>, n: Map<Seq<char>, u64>) -> Set<Seq<char>> {
    Set::new(|k: Seq<char>| o.dom().contains(k) && n.dom().contains(k) && o[k] != n[k])
}

/// No identifier was added, removed or modified.
pub open spec fn diff_empty(o: Map<Seq<char>, u64>, n: Map<Seq<char>, u64>) -> bool {
    added_keys(o, n).is_empty() && removed_keys(o, n).is_empty() && modified_keys(o, n).is_empty()
}

/// The three disjoint change sets of one comparison.
pub struct DiffResult {
    pub added: Vec<String>,
    pub removed: Vec<String>,
    pub modified: Vec<String>,
}

impl DiffResult {
    /// The result lists are sorted, duplicate-free renderings of the change
    /// sets of `o` against `n`.
    pub open spec fn is_diff_of(self, o: Map<Seq<char>, u64>, n: Map<Seq<char>, u64>) -> bool {
        &&& sorted_le(str_views(self.added@))
        &&& distinct_seq(str_views(self.added@))
        &&& str_views(self.added@).to_set() == added_keys(o, n)
        &&& sorted_le(str_views(self.removed@))
        &&& distinct_seq(str_views(self.removed@))
        &&& str_views(self.removed@).to_set() == removed_keys(o, n)
        &&& sorted_le(str_views(self.modified@))
        &&& distinct_seq(str_views(self.modified@))
        &&& str_views(self.modified@).to_set() == modified_keys(o, n)
    }

    /// Are all three lists empty?
    pub fn is_empty(&self) -> (r: bool)
        ensures
            r == (self.added@.len() == 0 && self.removed@.len() == 0 && self.modified@.len() == 0),
    {
        self.added.len() == 0 && self.removed.len() == 0 && self.modified.len() == 0
    }
}

/// Keys of the entries absent from `o`, in entry order.
pub open spec fn scan_added(es: Seq<(String, u64)>, o: Map<Seq<char>, u64>) -> Seq<Seq<char>>
    decreases es.len(),
{
    if es.len() == 0 {
        Seq::empty()
    } else {
        let r = scan_added(es.drop_last(), o);
        if !o.dom().contains(es.last().0@) {
            r.push(es.last().0@)
        } else {
            r
        }
    }
}

/// Keys of the entries present in `o` with a different value, in entry order.
pub open spec fn scan_modified(es: Seq<(String, u64)>, o: Map<Seq<char>, u64>) -> Seq<Seq<char>>
    decreases es.len(),
{
    if es.len() == 0 {
        Seq::empty()
    } else {
        let r = scan_modified(es.drop_last(), o);
        if o.dom().contains(es.last().0@) && o[es.last().0@] != es.last().1 {
            r.push(es.last().0@)
        } else {
            r
        }
    }
}

/// On a well-formed entry list the scan yields a duplicate-free listing of
/// the added (respectively modified) key set.
proof fn lemma_scan_sets(es: Seq<(String, u64)>, o: Map<Seq<char>, u64>)
    requires
        forall|i: int, j: int|
            0 <= i < j < es.len() ==> (#[trigger] es[i]).0@ != (#[trigger] es[j]).0@,
    ensures
        scan_added(es, o).to_set() == added_keys(o, map_of(es)),
        distinct_seq(scan_added(es, o)),
        scan_modified(es, o).to_set() == modified_keys(o, map_of(es)),
        distinct_seq(scan_modified(es, o)),
    decreases es.len(),
{
    lemma_map_of(es);
    if es.len() == 0 {
        assert(map_of(es).dom() =~= Set::<Seq<char>>::empty());
        assert(scan_added(es, o).to_set() =~= added_keys(o, map_of(es)));
        assert(scan_modified(es, o).to_set() =~= modified_keys(o, map_of(es)));
    } else {
        let hd = es.drop_last();
        let x = es.last();
        assert forall|i: int, j: int|
            0 <= i < j < hd.len() implies (#[trigger] hd[i]).0@ != (#[trigger] hd[j]).0@ by {
            assert(hd[i] == es[i] && hd[j] == es[j]);
        }
        lemma_scan_sets(hd, o);
        lemma_map_of(hd);
        assert(!map_of(hd).dom().contains(x.0@)) by {
            if map_of(hd).dom().contains(x.0@) {
                let i = choose|i: int| 0 <= i < hd.len() && (#[trigger] hd[i]).0@ == x.0@;
                assert(es[i].0@ == es[es.len() - 1].0@);
            }
        }
        assert(map_of(es) == map_of(hd).insert(x.0@, x.1));
        if !o.dom().contains(x.0@) {
            lemma_to_set_push(scan_added(hd, o), x.0@);
            assert(!scan_added(hd, o).to_set().contains(x.0@));
            assert(forall|j: int|
                0 <= j < scan_added(hd, o).len() ==> scan_added(hd, o).to_set().contains(
                    #[trigger] scan_added(hd, o)[j],
                ));
            assert(distinct_seq(scan_added(es, o)));
        }
        assert(scan_added(es, o).to_set() =~= added_keys(o, map_of(es)));
        if o.dom().contains(x.0@) && o[x.0@] != x.1 {
            lemma_to_set_push(scan_modified(hd, o), x.0@);
            assert(!scan_modified(hd, o).to_set().contains(x.0@));
            assert(forall|j: int|
                0 <= j < scan_modified(hd, o).len() ==> scan_modified(hd, o).to_set().contains(
                    #[trigger] scan_modified(hd, o)[j],
                ));
            assert(distinct_seq(scan_modified(es, o)));
        }
        assert(scan_modified(es, o).to_set() =~= modified_keys(o, map_of(es)));
    }
}

/// Sort a duplicate-free list of identifiers ascending.
fn sort_keys(v: Vec<String>) -> (r: Vec<String>)
    requires
        distinct_seq(str_views(v@)),
    ensures
        sorted_le(str_views(r@)),
        distinct_seq(str_views(r@)),
        str_views(r@).to_set() == str_views(v@).to_set(),
        r@.len() == v@.len(),
{
    let ghost vs = str_views(v@);
    let mut r: Vec<String> = Vec::new();
    let mut i: usize = 0;
    proof {
        assert(str_views(r@).to_set() =~= vs.take(0).to_set());
    }
    while i < v.len()
        invariant
            vs == str_views(v@),
            distinct_seq(vs),
            0 <= i <= vs.len(),
            sorted_le(str_views(r@)),
            distinct_seq(str_views(r@)),
            str_views(r@).to_set() == vs.take(i as int).to_set(),
            r@.len() == i,
        decreases vs.len() - i,
    {
        proof {
            assert(!vs.take(i as int).to_set().contains(vs[i as int])) by {
                if vs.take(i as int).to_set().contains(vs[i as int]) {
                    let j = choose|j: int|
                        0 <= j < i && #[trigger] vs.take(i as int)[j] == vs[i as int];
                    assert(vs[j] == vs[i as int]);
                }
            }
        }
        let x = v[i].clone();
        assert(x@ == vs[i as int]);
        insert_sorted(&mut r, x);
        proof {
            lemma_to_set_push(vs.take(i as int), vs[i as int]);
            assert(vs.take(i + 1) =~= vs.take(i as int).push(vs[i as int]));
        }
        i = i + 1;
    }
    proof {
        assert(vs.take(vs.len() as int) =~= vs);
    }
    r
}

/// Compare two release indices.  Identifiers only in `new` are added, only
/// in `old` removed, in both with different fingerprints modified; each
/// returned list is sorted ascending and duplicate-free.
pub fn diff(old: &ReleaseIndex, new: &ReleaseIndex) -> (r: DiffResult)
    requires
        old.wf(),
        new.wf(),
    ensures
        r.is_diff_of(old@, new@),
        r.added@.len() == 0 <==> added_keys(old@, new@).is_empty(),
        r.removed@.len() == 0 <==> removed_keys(old@, new@).is_empty(),
        r.modified@.len() == 0 <==> modified_keys(old@, new@).is_empty(),
{
    let ghost nes = new.entries@;
    let ghost oes = old.entries@;
    let mut added: Vec<String> = Vec::new();
    let mut modified: Vec<String> = Vec::new();
    let mut removed: Vec<String> = Vec::new();
    let mut i: usize = 0;
    proof {
        assert(str_views(added@) =~= scan_added(nes.take(0), old@));
        assert(str_views(modified@) =~= scan_modified(nes.take(0), old@));
    }
    while i < new.entries.len()
        invariant
            old.wf(),
            new.wf(),
            nes == new.entries@,
            oes == old.entries@,
            0 <= i <= nes.len(),
            str_views(added@) == scan_added(nes.take(i as int), old@),
            str_views(modified@) == scan_modified(nes.take(i as int), old@),
        decreases nes.len() - i,
    {
        let k = new.entries[i].0.clone();
        let fp = new.entries[i].1;
        proof {
            assert(nes.take(i + 1).drop_last() =~= nes.take(i as int));
            assert(nes.take(i + 1).last() == nes[i as int]);
        }
        let ghost old_added = added@;
        let ghost old_modified = modified@;
        match old.get(k.as_str()) {
            Option::None => {
                added.push(k);
                proof {
                    assert(str_views(added@) =~= str_views(old_added).push(nes[i as int].0@));
                }
            },
            Option::Some(ofp) => {
                if ofp != fp {
                    modified.push(k);
                    proof {
                        assert(str_views(modified@) =~= str_views(old_modified).push(
                            nes[i as int].0@,
                        ));
                    }
                }
            },
        }
        i = i + 1;
    }
    let mut j: usize = 0;
    proof {
        assert(str_views(removed@) =~= scan_added(oes.take(0), new@));
    }
    while j < old.entries.len()
        invariant
            old.wf(),
            new.wf(),
            nes == new.entries@,
            oes == old.entries@,
            0 <= j <= oes.len(),
            str_views(removed@) == scan_added(oes.take(j as int), new@),
        decreases oes.len() - j,
    {
        let k = old.entries[j].0.clone();
        proof {
            assert(oes.take(j + 1).drop_last() =~= oes.take(j as int));
            assert(oes.take(j + 1).last() == oes[j as int]);
        }
        let ghost old_removed = removed@;
        match new.get(k.as_str()) {
            Option::None => {
                removed.push(k);
                proof {
                    assert(str_views(removed@) =~= str_views(old_removed).push(oes[j as int].0@));
                }
            },
            Option::Some(_) => {},
        }
        j = j + 1;
    }
    proof {
        assert(nes.take(nes.len() as int) =~= nes);
        assert(oes.take(oes.len() as int) =~= oes);
        lemma_scan_sets(nes, old@);
        lemma_scan_sets(oes, new@);
        assert(scan_added(oes, new@).to_set() == added_keys(new@, map_of(oes)));
        assert(added_keys(new@, old@) =~= removed_keys(old@, new@));
    }
    let added_s = sort_keys(added);
    let removed_s = sort_keys(removed);
    let modified_s = sort_keys(modified);
    proof {
        lemma_len_zero_iff_empty(str_views(added_s@), added_keys(old@, new@));
        lemma_len_zero_iff_empty(str_views(removed_s@), removed_keys(old@, new@));
        lemma_len_zero_iff_empty(str_views(modified_s@), modified_keys(old@, new@));
    }
    DiffResult { added: added_s, removed: removed_s, modified: modified_s }
}

/// Compare two source-tree indices.  A source fingerprint is a content
/// digest rather than a checksum-and-size pair, but fingerprints are
/// opaque, so the classification is that of `diff`.
pub fn diff_classes(old: &ReleaseIndex, new: &ReleaseIndex) -> (r: DiffResult)
    requires
        old.wf(),
        new.wf(),
    ensures
        r.is_diff_of(old@, new@),
        r.added@.len() == 0 <==> added_keys(old@, new@).is_empty(),
        r.removed@.len() == 0 <==> removed_keys(old@, new@).is_empty(),
        r.modified@.len() == 0 <==> modified_keys(old@, new@).is_empty(),
{
    diff(old, new)
}

proof fn lemma_len_zero_iff_empty(s: Seq<Seq<char>>, ks: Set<Seq<char>>)
    requires
        s.to_set() == ks,
    ensures
        s.len() == 0 <==> ks.is_empty(),
{
    if s.len() == 0 {
        assert(s.to_set() =~= Set::<Seq<char>>::empty());
    } else {
        assert(s.to_set().contains(s[0]));
        assert(!ks.is_empty());
    }
    if ks.is_empty() {
        assert(ks =~= Set::<Seq<char>>::empty());
        lemma_empty_set_seq(s);
    }
}

/// Two sorted, duplicate-free lists with the same element set are equal.
pub proof fn lemma_sorted_distinct_unique(a: Seq<Seq<char>>, b: Seq<Seq<char>>)
    requires
        sorted_le(a),
        distinct_seq(b),
        sorted_le(b),
        distinct_seq(a),
        a.to_set() == b.to_set(),
    ensures
        a == b,
    decreases a.len(),
{
    if a.len() == 0 && b.len() == 0 {
        assert(a =~= b);
    } else if a.len() == 0 {
        assert(b.to_set().contains(b[0]));
        assert(a.to_set().contains(b[0]));
        let i = choose|i: int| 0 <= i < a.len() && a[i] == b[0];
    } else if b.len() == 0 {
        assert(a.to_set().contains(a[0]));
        assert(b.to_set().contains(a[0]));
        let i = choose|i: int| 0 <= i < b.len() && b[i] == a[0];
    } else {
        assert(a.to_set().contains(b[0]));
        let i = choose|i: int| 0 <= i < a.len() && a[i] == b[0];
        assert(b.to_set().contains(a[0]));
        let j = choose|j: int| 0 <= j < b.len() && b[j] == a[0];
        assert(crate::strutil::lex_le(a[0], b[0])) by {
            if i == 0 {
                crate::strutil::lemma_lex_eq(a[0], b[0]);
            } else {
                assert(crate::strutil::lex_le(a[0], a[i]));
            }
        }
        assert(crate::strutil::lex_le(b[0], a[0])) by {
            if j == 0 {
                crate::strutil::lemma_lex_eq(b[0], a[0]);
            } else {
                assert(crate::strutil::lex_le(b[0], b[j]));
            }
        }
        crate::strutil::lemma_lex_antisym(a[0], b[0]);
        crate::strutil::lemma_lex_eq(a[0], b[0]);
        assert(a[0] == b[0]);
        let ta = a.drop_first();
        let tb = b.drop_first();
        assert(sorted_le(ta) && distinct_seq(ta)) by {
            assert(forall|p: int, q: int|
                0 <= p < q < ta.len() ==> #[trigger] ta[p] == a[p + 1] && #[trigger] ta[q] == a[q
                    + 1]);
        }
        assert(sorted_le(tb) && distinct_seq(tb)) by {
            assert(forall|p: int, q: int|
                0 <= p < q < tb.len() ==> #[trigger] tb[p] == b[p + 1] && #[trigger] tb[q] == b[q
                    + 1]);
        }
        assert(ta.to_set() =~= tb.to_set()) by {
            assert forall|k: Seq<char>| #[trigger]
                ta.to_set().contains(k) implies tb.to_set().contains(k) by {
                let p = choose|p: int| 0 <= p < ta.len() && ta[p] == k;
                assert(a[p + 1] == k);
                assert(k != a[0]);
                assert(a.to_set().contains(k)) by {
                    assert(a[p + 1] == k);
                }
                assert(b.to_set().contains(k));
                let q = choose|q: int| 0 <= q < b.len() && b[q] == k;
                assert(q != 0);
                assert(tb[q - 1] == k);
            }
            assert forall|k: Seq<char>| #[trigger]
                tb.to_set().contains(k) implies ta.to_set().contains(k) by {
                let p = choose|p: int| 0 <= p < tb.len() && tb[p] == k;
                assert(b[p + 1] == k);
                assert(k != b[0]);
                assert(b.to_set().contains(k)) by {
                    assert(b[p + 1] == k);
                }
                assert(a.to_set().contains(k));
                let q = choose|q: int| 0 <= q < a.len() && a[q] == k;
                assert(q != 0);
                assert(ta[q - 1] == k);
            }
        }
        lemma_sorted_distinct_unique(ta, tb);
        assert(a =~= b) by {
            assert(forall|p: int| 1 <= p < a.len() ==> #[trigger] a[p] == ta[p - 1]);
            assert(forall|p: int| 1 <= p < b.len() ==> #[trigger] b[p] == tb[p - 1]);
        }
    }
}

/// Swapping the two indices swaps the added and removed lists themselves and
/// keeps the modified list: of two results of the same comparison taken in
/// the two directions, the added units of one are exactly the removed units
/// of the other, and both report the same modified units.
pub proof fn lemma_diff_swap_lists(
    f: DiffResult,
    b: DiffResult,
    o: Map<Seq<char>, u64>,
    n: Map<Seq<char>, u64>,
)
    requires
        f.is_diff_of(o, n),
        b.is_diff_of(n, o),
    ensures
        str_views(f.added@) == str_views(b.removed@),
        str_views(f.removed@) == str_views(b.added@),
        str_views(f.modified@) == str_views(b.modified@),
{
    lemma_diff_swap(o, n);
    lemma_sorted_distinct_unique(str_views(f.added@), str_views(b.removed@));
    lemma_sorted_distinct_unique(str_views(f.removed@), str_views(b.added@));
    lemma_sorted_distinct_unique(str_views(f.modified@), str_views(b.modified@));
}

/// Swapping the two indices swaps added with removed and keeps modified:
/// `added(o, n) == removed(n, o)`, `removed(o, n) == added(n, o)` and
/// `modified(o, n) == modified(n, o)`.
pub proof fn lemma_diff_swap(o: Map<Seq<char>, u64>, n: Map<Seq<char>, u64>)
    ensures
        added_keys(o, n) == removed_keys(n, o),
        removed_keys(o, n) == added_keys(n, o),
        modified_keys(o, n) == modified_keys(n, o),
{
    assert(added_keys(o, n) =~= removed_keys(n, o));
    assert(removed_keys(o, n) =~= added_keys(n, o));
    assert(modified_keys(o, n) =~= modified_keys(n, o));
}

/// Comparing an index with itself yields three empty change sets.
pub proof fn lemma_diff_self(m: Map<Seq<char>, u64>)
    ensures
        added_keys(m, m).is_empty(),
        removed_keys(m, m).is_empty(),
        modified_keys(m, m).is_empty(),
{
    assert(added_keys(m, m) =~= Set::<Seq<char>>::empty());
    assert(removed_keys(m, m) =~= Set::<Seq<char>>::empty());
    assert(modified_keys(m, m) =~= Set::<Seq<char>>::empty());
}

/// A comparison of an index with itself reports three empty lists.
pub proof fn lemma_diff_self_lists(d: DiffResult, m: Map<Seq<char>, u64>)
    requires
        d.is_diff_of(m, m),
    ensures
        d.added@.len() == 0,
        d.removed@.len() == 0,
        d.modified@.len() == 0,
{
    lemma_diff_self(m);
    assert(added_keys(m, m) =~= Set::<Seq<char>>::empty());
    assert(removed_keys(m, m) =~= Set::<Seq<char>>::empty());
    assert(modified_keys(m, m) =~= Set::<Seq<char>>::empty());
    lemma_empty_set_seq(str_views(d.added@));
    lemma_empty_set_seq(str_views(d.removed@));
    lemma_empty_set_seq(str_views(d.modified@));
}

/// The three change sets are empty exactly when the two mappings are equal.
pub proof fn lemma_diff_empty_iff_eq(o: Map<Seq<char>, u64>, n: Map<Seq<char>, u64>)
    ensures
        diff_empty(o, n) <==> o == n,
{
    if diff_empty(o, n) {
        assert(o.dom() =~= n.dom()) by {
            assert(forall|k: Seq<char>|
                o.dom().contains(k) && !n.dom().contains(k) ==> removed_keys(o, n).contains(k));
            assert(forall|k: Seq<char>|
                n.dom().contains(k) && !o.dom().contains(k) ==> added_keys(o, n).contains(k));
        }
        assert forall|k: Seq<char>| o.dom().contains(k) implies o[k] == n[k] by {
            if o[k] != n[k] {
                assert(modified_keys(o, n).contains(k));
            }
        }
        assert(o =~= n);
    }
    if o == n {
        lemma_diff_self(o);
    }
}

} // verus!
