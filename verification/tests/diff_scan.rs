use verdiff::diff::{diff, diff_classes};
use verdiff::index::ReleaseIndex;
use verdiff::scan::{scan, ScanEntry};

fn index_of(pairs: &[(&str, u64)]) -> ReleaseIndex {
    let mut ix = ReleaseIndex::new();
    for (k, fp) in pairs {
        ix.insert(k.to_string(), *fp);
    }
    ix
}

#[test]
fn classifies_added_removed_modified() {
    let old = index_of(&[("A", 1), ("B", 2)]);
    let new = index_of(&[("B", 3), ("C", 4)]);
    let d = diff(&old, &new);
    assert_eq!(d.added, vec!["C".to_string()]);
    assert_eq!(d.removed, vec!["A".to_string()]);
    assert_eq!(d.modified, vec!["B".to_string()]);
}

#[test]
fn result_lists_are_sorted() {
    let old = index_of(&[]);
    let new = index_of(&[("z.Z", 1), ("a.A", 2), ("m.M", 3)]);
    let d = diff(&old, &new);
    assert_eq!(
        d.added,
        vec!["a.A".to_string(), "m.M".to_string(), "z.Z".to_string()]
    );
    assert!(d.removed.is_empty());
    assert!(d.modified.is_empty());
}

#[test]
fn diff_of_an_index_with_itself_is_empty() {
    let x = index_of(&[("A", 1), ("B", 2), ("C", 3)]);
    let d = diff(&x, &x);
    assert!(d.added.is_empty());
    assert!(d.removed.is_empty());
    assert!(d.modified.is_empty());
    assert!(d.is_empty());
}

#[test]
fn swapping_the_indices_swaps_added_and_removed() {
    let old = index_of(&[("A", 1), ("B", 2), ("D", 9)]);
    let new = index_of(&[("B", 3), ("C", 4), ("D", 9)]);
    let fwd = diff(&old, &new);
    let bwd = diff(&new, &old);
    assert_eq!(fwd.added, bwd.removed);
    assert_eq!(fwd.removed, bwd.added);
    assert_eq!(fwd.modified, bwd.modified);
}

#[test]
fn diff_classes_matches_diff() {
    let old = index_of(&[("p.Foo", 10)]);
    let new = index_of(&[("p.Foo", 11), ("p.Bar", 5)]);
    let d = diff_classes(&old, &new);
    assert_eq!(d.added, vec!["p.Bar".to_string()]);
    assert!(d.removed.is_empty());
    assert_eq!(d.modified, vec!["p.Foo".to_string()]);
}

#[test]
fn inserting_a_key_twice_replaces_its_fingerprint() {
    let mut ix = ReleaseIndex::new();
    ix.insert("A".to_string(), 1);
    ix.insert("A".to_string(), 2);
    assert_eq!(ix.len(), 1);
    assert_eq!(ix.get("A"), Some(2));
    assert_eq!(ix.get("B"), None);
}

fn entry(label: &str, pairs: Option<&[(&str, u64)]>) -> ScanEntry {
    ScanEntry {
        label: label.to_string(),
        index: pairs.map(index_of),
    }
}

#[test]
fn scan_skips_content_identical_runs() {
    let entries = vec![
        entry("v1", Some(&[("A", 1)])),
        entry("v2", Some(&[("A", 1)])),
        entry("v3", Some(&[("A", 2)])),
    ];
    let reports = scan(&entries).expect("scan runs");
    assert_eq!(reports.len(), 1);
    assert_eq!(reports[0].older, "v1");
    assert_eq!(reports[0].newer, "v3");
    assert_eq!(reports[0].changes.modified, vec!["A".to_string()]);
}

#[test]
fn scan_skips_a_failed_candidate_without_advancing() {
    let entries = vec![
        entry("v1", Some(&[("A", 1)])),
        entry("v2", None),
        entry("v3", Some(&[("A", 2)])),
    ];
    let reports = scan(&entries).expect("scan runs");
    assert_eq!(reports.len(), 1);
    assert_eq!(reports[0].older, "v1");
    assert_eq!(reports[0].newer, "v3");
}

#[test]
fn scan_aborts_when_the_first_release_has_no_index() {
    let entries = vec![
        entry("v1", None),
        entry("v2", Some(&[("A", 1)])),
        entry("v3", Some(&[("A", 2)])),
    ];
    assert!(scan(&entries).is_none());
    assert!(scan(&Vec::new()).is_none());
}

#[test]
fn scan_advances_the_baseline_after_a_report() {
    let entries = vec![
        entry("v1", Some(&[("A", 1)])),
        entry("v2", Some(&[("A", 2)])),
        entry("v3", Some(&[("A", 2)])),
        entry("v4", Some(&[("A", 3)])),
    ];
    let reports = scan(&entries).expect("scan runs");
    assert_eq!(reports.len(), 2);
    assert_eq!(reports[0].older, "v1");
    assert_eq!(reports[0].newer, "v2");
    assert_eq!(reports[1].older, "v2");
    assert_eq!(reports[1].newer, "v4");
}
