//! Change-compaction scan over an ordered release list.
//!
//! The scan keeps a baseline cursor, initially the first release, and walks
//! the remaining releases in order.  A candidate whose index could not be
//! built is skipped.  A candidate whose diff against the baseline is empty
//! is skipped.  Otherwise the pair is reported and the baseline advances to
//! the candidate.  A missing index on the first release aborts the scan.

use vstd::prelude::*;

verus! {

use crate::index::ReleaseIndex;
use crate::diff::{DiffResult, diff, diff_empty, lemma_diff_empty_iff_eq};

/// One release handed to the scanner: its label and its index, `None` when
/// fetching or indexing the release failed.
pub struct ScanEntry {
    pub label: String,
    pub index: Option<ReleaseIndex>,
}

/// The view of one entry: label characters and the optional mapping.
pub open spec fn entry_view(e: ScanEntry) -> (Seq<char>, Option<Map<Seq<char>, u64>>) {
    (
        e.label@,
        match e.index {
            Some(ix) => Some(ix@),
            None => None,
        },
    )
}

pub open spec fn entry_views(es: Seq<ScanEntry>) -> Seq<(Seq<char>, Option<Map<Seq<char>, u64>>)> {
    es.map_values(|e: ScanEntry| entry_view(e))
}

pub open spec fn entry_wf(e: ScanEntry) -> bool {
    match e.index {
        Some(ix) => ix.wf(),
        None => true,
    }
}

/// One reported transition: the two labels and the change sets between them.
pub struct Report {
    pub older: String,
    pub newer: String,
    pub changes: DiffResult,
}

/// The (baseline, candidate) position pairs the scan reports, walking from
/// position `i` with baseline `b`.
pub open spec fn scan_pairs(
    es: Seq<(Seq<char>, Option<Map<Seq<char>, u64>>)>,
    b: int,
    i: int,
) -> Seq<(int, int)>
    decreases es.len() - i,
{
    if i < 0 || i >= es.len() {
        Seq::empty()
    } else {
        match es[i].1 {
            None => scan_pairs(es, b, i + 1),
            Some(m) => if 0 <= b < es.len() && es[b].1 is Some && diff_empty(es[b].1->0, m) {
                scan_pairs(es, b, i + 1)
            } else {
                seq![(b, i)] + scan_pairs(es, i, i + 1)
            },
        }
    }
}

/// Does one report describe the transition `pair` of `evs`?
pub open spec fn report_matches(
    r: Report,
    evs: Seq<(Seq<char>, Option<Map<Seq<char>, u64>>)>,
    pair: (int, int),
) -> bool {
    &&& 0 <= pair.0 < evs.len()
    &&& 0 <= pair.1 < evs.len()
    &&& r.older@ == evs[pair.0].0
    &&& r.newer@ == evs[pair.1].0
    &&& evs[pair.0].1 is Some
    &&& evs[pair.1].1 is Some
    &&& r.changes.is_diff_of(evs[pair.0].1->0, evs[pair.1].1->0)
}

/// Walk the ordered, already filtered release list and report every
/// transition whose content differs from the last reported baseline.
/// Returns `None` when the list is empty or its first release has no index,
/// which aborts the scan.
pub fn scan(entries: &Vec<ScanEntry>) -> (r: Option<Vec<Report>>)
    requires
        forall|k: int| 0 <= k < entries@.len() ==> entry_wf(#[trigger] entries@[k]),
    ensures
        match r {
            None => entries@.len() == 0 || entries@[0].index is None,
            Some(reports) => {
                &&& entries@.len() > 0
                &&& entries@[0].index is Some
                &&& reports@.len() == scan_pairs(entry_views(entries@), 0, 1).len()
                &&& forall|j: int|
                    0 <= j < reports@.len() ==> report_matches(
                        #[trigger] reports@[j],
                        entry_views(entries@),
                        scan_pairs(entry_views(entries@), 0, 1)[j],
                    )
            },
        },
{
    let ghost evs = entry_views(entries@);
    if entries.len() == 0 {
        return None;
    }
    if entries[0].index.is_none() {
        return None;
    }
    let mut reports: Vec<Report> = Vec::new();
    let mut b: usize = 0;
    let mut i: usize = 1;
    let ghost mut done: Seq<(int, int)> = Seq::empty();
    while i < entries.len()
        invariant
            evs == entry_views(entries@),
            forall|k: int| 0 <= k < entries@.len() ==> entry_wf(#[trigger] entries@[k]),
            0 <= b < i <= entries@.len(),
            entries@[b as int].index is Some,
            scan_pairs(evs, 0, 1) == done + scan_pairs(evs, b as int, i as int),
            reports@.len() == done.len(),
            forall|j: int|
                0 <= j < done.len() ==> report_matches(#[trigger] reports@[j], evs, done[j]),
        decreases entries@.len() - i,
    {
        proof {
            assert(evs[i as int] == entry_view(entries@[i as int]));
            assert(evs[b as int] == entry_view(entries@[b as int]));
        }
        match &entries[i].index {
            Option::None => {
                proof {
                    assert(scan_pairs(evs, b as int, i as int) == scan_pairs(
                        evs,
                        b as int,
                        i + 1,
                    ));
                }
            },
            Option::Some(ci) => {
                let has_baseline = entries[b].index.is_some();
                assert(has_baseline);
                match &entries[b].index {
                    Option::Some(bi) => {
                        let d = diff(bi, ci);
                        proof {
                            lemma_diff_empty_iff_eq(bi@, ci@);
                        }
                        if d.is_empty() {
                            proof {
                                assert(diff_empty(evs[b as int].1->0, evs[i as int].1->0));
                                assert(scan_pairs(evs, b as int, i as int) == scan_pairs(
                                    evs,
                                    b as int,
                                    i + 1,
                                ));
                            }
                        } else {
                            proof {
                                assert(!diff_empty(evs[b as int].1->0, evs[i as int].1->0));
                                assert(scan_pairs(evs, b as int, i as int) == seq![
                                    (b as int, i as int),
                                ] + scan_pairs(evs, i as int, i + 1));
                            }
                            let rep = Report {
                                older: entries[b].label.clone(),
                                newer: entries[i].label.clone(),
                                changes: d,
                            };
                            reports.push(rep);
                            proof {
                                done = done.push((b as int, i as int));
                                assert(scan_pairs(evs, 0, 1) =~= done + scan_pairs(
                                    evs,
                                    i as int,
                                    i + 1,
                                ));
                            }
                            b = i;
                        }
                    },
                    Option::None => {
                        proof {
                            assert(false);
                        }
                    },
                }
            },
        }
        i = i + 1;
    }
    proof {
        assert(scan_pairs(evs, b as int, entries@.len() as int) =~= Seq::<(int, int)>::empty());
        assert(scan_pairs(evs, 0, 1) =~= done);
    }
    Some(reports)
}

/// A run of content-identical releases is compacted: over three releases
/// whose first two indices are equal and whose third differs, exactly the
/// pair of the first and third release is reported.
pub proof fn lemma_scan_skips_identical(
    evs: Seq<(Seq<char>, Option<Map<Seq<char>, u64>>)>,
    m0: Map<Seq<char>, u64>,
    m1: Map<Seq<char>, u64>,
    m2: Map<Seq<char>, u64>,
)
    requires
        evs.len() == 3,
        evs[0].1 == Some(m0),
        evs[1].1 == Some(m1),
        evs[2].1 == Some(m2),
        m0 == m1,
        m1 != m2,
    ensures
        scan_pairs(evs, 0, 1) == seq![(0int, 2int)],
{
    lemma_diff_empty_iff_eq(m0, m1);
    lemma_diff_empty_iff_eq(m0, m2);
    assert(scan_pairs(evs, 0, 1) == scan_pairs(evs, 0, 2));
    assert(scan_pairs(evs, 0, 2) == seq![(0int, 2int)] + scan_pairs(evs, 2, 3));
    assert(scan_pairs(evs, 2, 3) =~= Seq::<(int, int)>::empty());
    assert(scan_pairs(evs, 0, 1) =~= seq![(0int, 2int)]);
}

/// A failed index in the middle of a run does not advance the baseline:
/// over three releases whose second index is missing and whose third differs
/// from the first, exactly the pair of the first and third release is
/// reported.
pub proof fn lemma_scan_skips_failed(
    evs: Seq<(Seq<char>, Option<Map<Seq<char>, u64>>)>,
    m0: Map<Seq<char>, u64>,
    m2: Map<Seq<char>, u64>,
)
    requires
        evs.len() == 3,
        evs[0].1 == Some(m0),
        evs[1].1 is None,
        evs[2].1 == Some(m2),
        m0 != m2,
    ensures
        scan_pairs(evs, 0, 1) == seq![(0int, 2int)],
{
    lemma_diff_empty_iff_eq(m0, m2);
    assert(scan_pairs(evs, 0, 1) == scan_pairs(evs, 0, 2));
    assert(scan_pairs(evs, 0, 2) == seq![(0int, 2int)] + scan_pairs(evs, 2, 3));
    assert(scan_pairs(evs, 2, 3) =~= Seq::<(int, int)>::empty());
    assert(scan_pairs(evs, 0, 1) =~= seq![(0int, 2int)]);
}

} // verus!
