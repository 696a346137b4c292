use verdiff::group::{group_classes, split_class, truncate_groups};

#[test]
fn splits_at_the_first_package_root_marker() {
    assert_eq!(
        split_class("mod-core.src.main.java.org.acme.Foo"),
        ("mod-core.src.main.java".to_string(), "org.acme.Foo".to_string())
    );
    assert_eq!(
        split_class("mod.com.acme.Bar"),
        ("mod".to_string(), "com.acme.Bar".to_string())
    );
}

#[test]
fn splits_at_whichever_marker_occurs_first() {
    // Both markers occur; the earlier one wins, in either order.
    assert_eq!(
        split_class("x.com.y.org.z"),
        ("x".to_string(), "com.y.org.z".to_string())
    );
    assert_eq!(
        split_class("x.org.y.com.z"),
        ("x".to_string(), "org.y.com.z".to_string())
    );
}

#[test]
fn unmatched_identifiers_fall_into_the_default_group() {
    assert_eq!(split_class("Top"), ("".to_string(), "Top".to_string()));
    assert_eq!(
        split_class("com.acme.Baz"),
        ("".to_string(), "com.acme.Baz".to_string())
    );
}

#[test]
fn groups_come_sorted_with_sorted_members() {
    let classes: Vec<String> = [
        "b.org.x.Two",
        "a.org.x.One",
        "a.org.x.Alpha",
        "Plain",
    ]
    .iter()
    .map(|s| s.to_string())
    .collect();
    let groups = group_classes(&classes);
    let keys: Vec<&str> = groups.iter().map(|g| g.key.as_str()).collect();
    assert_eq!(keys, vec!["", "a", "b"]);
    assert_eq!(groups[1].members, vec!["org.x.Alpha".to_string(), "org.x.One".to_string()]);
    assert_eq!(groups[2].members, vec!["org.x.Two".to_string()]);
    assert_eq!(groups[0].members, vec!["Plain".to_string()]);
}

#[test]
fn truncation_caps_the_member_count_and_reports_the_rest() {
    let classes: Vec<String> = (0..120).map(|i| format!("unit{:03}", i)).collect();
    let groups = group_classes(&classes);
    let total: usize = groups.iter().map(|g| g.members.len()).sum();
    assert_eq!(total, 120);
    let (cut, shown) = truncate_groups(groups, 50);
    assert_eq!(shown, 50);
    let cut_total: usize = cut.iter().map(|g| g.members.len()).sum();
    assert_eq!(cut_total, 50);
    assert_eq!(classes.len() - shown, 70);
}

#[test]
fn truncation_with_room_shows_everything() {
    let classes: Vec<String> = ["x.org.a.A", "y.org.b.B"]
        .iter()
        .map(|s| s.to_string())
        .collect();
    let groups = group_classes(&classes);
    let (cut, shown) = truncate_groups(groups, usize::MAX);
    assert_eq!(shown, 2);
    assert_eq!(cut.len(), 2);
}
