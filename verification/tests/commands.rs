use envrbw::ops::{apply_updates, apply_removals, sorted_names, namespace_names, list_lines};
use envrbw::rbw::ListItem;
use envrbw::store::parse;

fn item(name: &str, folder: Option<&str>) -> ListItem {
    ListItem {
        name: name.to_string(),
        folder: folder.map(|f| f.to_string()),
        item_type: "Login".to_string(),
    }
}

#[test]
fn set_applies_updates_in_order() {
    let entries = vec![
        ("B".to_string(), "2".to_string()),
        ("A".to_string(), "9".to_string()),
    ];
    let out = apply_updates("A=1", &entries);
    assert_eq!(out, "A=9\nB=2");
}

#[test]
fn set_later_entry_overrides_earlier() {
    let entries = vec![
        ("K".to_string(), "first".to_string()),
        ("K".to_string(), "second".to_string()),
    ];
    let out = apply_updates("", &entries);
    assert_eq!(out, "K=second");
}

#[test]
fn set_with_no_entries_leaves_text_alone() {
    let out = apply_updates("B=2\nA=1", &vec![]);
    assert_eq!(out, "B=2\nA=1");
}

#[test]
fn unset_removes_present_and_reports_absent() {
    let keys = vec!["A".to_string(), "X".to_string()];
    let (out, missing) = apply_removals("A=1\nB=2", &keys);
    assert_eq!(out, "B=2");
    assert_eq!(missing, vec!["X".to_string()]);
}

#[test]
fn unset_continues_after_absent_key() {
    let keys = vec!["X".to_string(), "B".to_string()];
    let (out, missing) = apply_removals("A=1\nB=2", &keys);
    assert_eq!(out, "A=1");
    assert_eq!(missing, vec!["X".to_string()]);
}

#[test]
fn unset_of_every_key_leaves_empty_text() {
    let keys = vec!["A".to_string(), "B".to_string()];
    let (out, missing) = apply_removals("A=1\nB=2", &keys);
    assert_eq!(out, "");
    assert!(missing.is_empty());
    assert!(parse(&out).is_empty());
}

#[test]
fn names_sort_ascending_with_duplicates_kept() {
    let names = vec![
        "beta".to_string(),
        "alpha".to_string(),
        "gamma".to_string(),
        "alpha".to_string(),
    ];
    let sorted = sorted_names(&names);
    assert_eq!(sorted, vec!["alpha", "alpha", "beta", "gamma"]);
}

#[test]
fn namespace_names_filters_by_folder() {
    let items = vec![
        item("ns1", Some("envrbw")),
        item("other", Some("personal")),
        item("ns2", Some("envrbw")),
        item("rootless", None),
    ];
    let names = namespace_names(&items, "envrbw");
    assert_eq!(names, vec!["ns1", "ns2"]);
}

#[test]
fn namespace_names_empty_folder_matches_folderless() {
    let items = vec![item("loose", None), item("boxed", Some("envrbw"))];
    let names = namespace_names(&items, "");
    assert_eq!(names, vec!["loose"]);
}

#[test]
fn list_lines_shows_keys_or_pairs() {
    let m = parse("B=2\nA=1");
    let keys_only = list_lines(&m, false);
    assert_eq!(keys_only, vec!["A", "B"]);
    let with_values = list_lines(&m, true);
    assert_eq!(with_values, vec!["A=1", "B=2"]);
}
