//! The index of one release: a mapping from compilation-unit identifier to
//! a 64-bit content fingerprint.
//!
//! The mapping is held as an association list with pairwise-distinct keys and
//! is viewed as a `Map<Seq<char>, u64>`.  Inserting an identifier a second
//! time replaces its fingerprint, as rebuilding an index entry would.

use vstd::prelude::*;

verus! {

use crate::strutil::str_eq;

/// The mapping an entry list denotes, later entries overriding earlier ones.
pub open spec fn map_of(es: Seq<(String, u64)>) -> Map<Seq<char>, u64>
    decreases es.len(),
{
    if es.len() == 0 {
        Map::empty()
    } else {
        map_of(es.drop_last()).insert(es.last().0@, es.last().1)
    }
}

/// Identifier-to-fingerprint mapping for exactly one release, immutable once
/// built.
pub struct ReleaseIndex {
    pub entries: Vec<(String, u64)>,
}

impl View for ReleaseIndex {
    type V = Map<Seq<char>, u64>;

    open spec fn view(&self) -> Map<Seq<char>, u64> {
        map_of(self.entries@)
    }
}

/// The domain of the denoted mapping is exactly the set of entry keys, and
/// on a well-formed list each entry gives its key's image.
pub proof fn lemma_map_of(es: Seq<(String, u64)>)
    ensures
        forall|k: Seq<char>|
            #[trigger] map_of(es).dom().contains(k) <==> exists|i: int|
                0 <= i < es.len() && (#[trigger] es[i]).0@ == k,
        (forall|i: int, j: int|
            0 <= i < j < es.len() ==> (#[trigger] es[i]).0@ != (#[trigger] es[j]).0@) ==> forall|
            i: int,
        |
            0 <= i < es.len() ==> map_of(es)[(#[trigger] es[i]).0@] == es[i].1,
    decreases es.len(),
{
    if es.len() > 0 {
        lemma_map_of(es.drop_last());
        assert forall|k: Seq<char>| #[trigger]
            map_of(es).dom().contains(k) implies exists|i: int|
            0 <= i < es.len() && (#[trigger] es[i]).0@ == k by {
            if k == es.last().0@ {
                assert(es[es.len() - 1].0@ == k);
            } else {
                assert(map_of(es.drop_last()).dom().contains(k));
                let i = choose|i: int|
                    0 <= i < es.drop_last().len() && (#[trigger] es.drop_last()[i]).0@ == k;
                assert(es[i].0@ == k);
            }
        }
        assert forall|k: Seq<char>|
            (exists|i: int| 0 <= i < es.len() && (#[trigger] es[i]).0@ == k) implies #[trigger]
            map_of(es).dom().contains(k) by {
            let i = choose|i: int| 0 <= i < es.len() && (#[trigger] es[i]).0@ == k;
            if i < es.len() - 1 {
                assert(es.drop_last()[i].0@ == k);
                assert(map_of(es.drop_last()).dom().contains(k));
            }
        }
        if forall|i: int, j: int|
            0 <= i < j < es.len() ==> (#[trigger] es[i]).0@ != (#[trigger] es[j]).0@ {
            assert forall|i: int|
                0 <= i < es.len() implies map_of(es)[(#[trigger] es[i]).0@] == es[i].1 by {
                if i < es.len() - 1 {
                    assert(es.drop_last()[i] == es[i]);
                    assert(es[i].0@ != es[es.len() - 1].0@);
                }
            }
        }
    }
}

impl ReleaseIndex {
    /// Keys are pairwise distinct.
    pub open spec fn wf(&self) -> bool {
        forall|i: int, j: int|
            0 <= i < j < self.entries@.len() ==> (#[trigger] self.entries@[i]).0@
                != (#[trigger] self.entries@[j]).0@
    }

    /// An empty index.
    pub fn new() -> (r: ReleaseIndex)
        ensures
            r.wf(),
            r@ == Map::<Seq<char>, u64>::empty(),
    {
        ReleaseIndex { entries: Vec::new() }
    }

    /// Number of units in the index.
    pub fn len(&self) -> (r: usize)
        requires
            self.wf(),
        ensures
            r == self.entries@.len(),
            r == self@.dom().len(),
    {
        proof {
            self.lemma_dom_len();
        }
        self.entries.len()
    }

    /// The fingerprint recorded for `k`, if any.
    pub fn get(&self, k: &str) -> (r: Option<u64>)
        requires
            self.wf(),
        ensures
            match r {
                Some(fp) => self@.dom().contains(k@) && self@[k@] == fp,
                None => !self@.dom().contains(k@),
            },
    {
        proof {
            lemma_map_of(self.entries@);
        }
        let mut i: usize = 0;
        while i < self.entries.len()
            invariant
                self.wf(),
                0 <= i <= self.entries@.len(),
                forall|j: int| 0 <= j < i ==> (#[trigger] self.entries@[j]).0@ != k@,
            decreases self.entries@.len() - i,
        {
            if str_eq(self.entries[i].0.as_str(), k) {
                proof {
                    lemma_map_of(self.entries@);
                }
                return Some(self.entries[i].1);
            }
            i = i + 1;
        }
        proof {
            lemma_map_of(self.entries@);
        }
        None
    }

    /// Record fingerprint `fp` for `k`, replacing any earlier record.
    pub fn insert(&mut self, k: String, fp: u64)
        requires
            old(self).wf(),
        ensures
            final (self).wf(),
            final (self)@ == old(self)@.insert(k@, fp),
    {
        let mut i: usize = 0;
        while i < self.entries.len()
            invariant
                self.wf(),
                self == old(self),
                0 <= i <= self.entries@.len(),
                forall|j: int| 0 <= j < i ==> (#[trigger] self.entries@[j]).0@ != k@,
            decreases self.entries@.len() - i,
        {
            if str_eq(self.entries[i].0.as_str(), k.as_str()) {
                let ghost es = self.entries@;
                let ghost ii = i as int;
                self.entries[i] = (k, fp);
                proof {
                    lemma_map_of_update_inner(es, ii, self.entries@[ii]);
                }
                return ;
            }
            i = i + 1;
        }
        let ghost es = self.entries@;
        self.entries.push((k, fp));
        proof {
            assert(self.entries@.drop_last() =~= es);
        }
    }

    /// A well-formed index has as many entries as keys.
    pub proof fn lemma_dom_len(&self)
        requires
            self.wf(),
        ensures
            self@.dom().len() == self.entries@.len(),
            self@.dom().finite(),
    {
        lemma_wf_dom_len(self.entries@);
    }
}

proof fn lemma_wf_dom_len(es: Seq<(String, u64)>)
    requires
        forall|i: int, j: int|
            0 <= i < j < es.len() ==> (#[trigger] es[i]).0@ != (#[trigger] es[j]).0@,
    ensures
        map_of(es).dom().len() == es.len(),
        map_of(es).dom().finite(),
    decreases es.len(),
{
    if es.len() == 0 {
        assert(map_of(es).dom() =~= Set::<Seq<char>>::empty());
    } else {
        assert forall|i: int, j: int|
            0 <= i < j < es.drop_last().len() implies (#[trigger] es.drop_last()[i]).0@
            != (#[trigger] es.drop_last()[j]).0@ by {
            assert(es.drop_last()[i] == es[i] && es.drop_last()[j] == es[j]);
        }
        lemma_wf_dom_len(es.drop_last());
        lemma_map_of(es.drop_last());
        assert(!map_of(es.drop_last()).dom().contains(es.last().0@)) by {
            if map_of(es.drop_last()).dom().contains(es.last().0@) {
                let i = choose|i: int|
                    0 <= i < es.drop_last().len() && (#[trigger] es.drop_last()[i]).0@
                        == es.last().0@;
                assert(es[i].0@ == es[es.len() - 1].0@);
            }
        }
        assert(map_of(es).dom() =~= map_of(es.drop_last()).dom().insert(es.last().0@));
    }
}

/// Updating the entry that holds key `x.0` denotes inserting into the mapping.
proof fn lemma_map_of_update_inner(es: Seq<(String, u64)>, i: int, x: (String, u64))
    requires
        forall|p: int, q: int|
            0 <= p < q < es.len() ==> (#[trigger] es[p]).0@ != (#[trigger] es[q]).0@,
        0 <= i < es.len(),
        x.0@ == es[i].0@,
    ensures
        map_of(es.update(i, x)) == map_of(es).insert(x.0@, x.1),
    decreases es.len(),
{
    let up = es.update(i, x);
    if i == es.len() - 1 {
        assert(up.drop_last() =~= es.drop_last());
        assert(up.last() == x);
        assert(map_of(up) == map_of(es.drop_last()).insert(x.0@, x.1));
        assert(map_of(es).insert(x.0@, x.1) == map_of(es.drop_last()).insert(
            es.last().0@,
            es.last().1,
        ).insert(x.0@, x.1));
        assert(map_of(es.drop_last()).insert(es.last().0@, es.last().1).insert(x.0@, x.1)
            =~= map_of(es.drop_last()).insert(x.0@, x.1));
    } else {
        assert forall|p: int, q: int|
            0 <= p < q < es.drop_last().len() implies (#[trigger] es.drop_last()[p]).0@
            != (#[trigger] es.drop_last()[q]).0@ by {
            assert(es.drop_last()[p] == es[p] && es.drop_last()[q] == es[q]);
        }
        assert(es.drop_last()[i] == es[i]);
        lemma_map_of_update_inner(es.drop_last(), i, x);
        assert(up.drop_last() =~= es.drop_last().update(i, x));
        assert(up.last() == es.last());
        assert(map_of(up) == map_of(es.drop_last()).insert(x.0@, x.1).insert(
            es.last().0@,
            es.last().1,
        ));
        assert(x.0@ != es.last().0@) by {
            assert(es[i].0@ != es[es.len() - 1].0@);
        }
        assert(map_of(es.drop_last()).insert(x.0@, x.1).insert(es.last().0@, es.last().1)
            =~= map_of(es.drop_last()).insert(es.last().0@, es.last().1).insert(x.0@, x.1));
    }
}

} // verus!
