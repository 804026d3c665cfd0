use envrbw::rbw::{
    RbwItem, RbwField, load_env_pairs, existing_notes, create_item, edit_item,
    write_namespace, WriteAction,
};

fn field(name: &str, value: Option<&str>, field_type: &str) -> RbwField {
    RbwField {
        name: name.to_string(),
        value: value.map(|v| v.to_string()),
        field_type: field_type.to_string(),
    }
}

#[test]
fn notes_take_priority_over_fields() {
    let item = RbwItem {
        item_type: Some("Login".to_string()),
        notes: Some("A=1".to_string()),
        fields: Some(vec![field("B", Some("2"), "text"), field("C", Some("3"), "hidden")]),
    };
    let pairs = load_env_pairs(&item);
    assert_eq!(pairs.len(), 1);
    assert_eq!(pairs.get("A").unwrap().as_str(), "1");
    assert!(!pairs.contains_key("B"));
    assert!(!pairs.contains_key("C"));
}

#[test]
fn fields_used_when_notes_empty() {
    let item = RbwItem {
        item_type: None,
        notes: Some("# only a comment\n".to_string()),
        fields: Some(vec![field("B", Some("2"), "text"), field("C", Some("3"), "hidden")]),
    };
    let pairs = load_env_pairs(&item);
    assert_eq!(pairs.len(), 2);
    assert_eq!(pairs.get("B").unwrap().as_str(), "2");
    assert_eq!(pairs.get("C").unwrap().as_str(), "3");
}

#[test]
fn fields_used_when_notes_absent() {
    let item = RbwItem {
        item_type: None,
        notes: None,
        fields: Some(vec![field("ONLY", Some("x"), "hidden")]),
    };
    let pairs = load_env_pairs(&item);
    assert_eq!(pairs.len(), 1);
    assert_eq!(pairs.get("ONLY").unwrap().as_str(), "x");
}

#[test]
fn unusable_fields_are_skipped() {
    let item = RbwItem {
        item_type: None,
        notes: None,
        fields: Some(vec![
            field("BOOL", Some("true"), "boolean"),
            field("EMPTY", None, "text"),
            field("OK", Some("v"), "text"),
        ]),
    };
    let pairs = load_env_pairs(&item);
    assert_eq!(pairs.len(), 1);
    assert_eq!(pairs.get("OK").unwrap().as_str(), "v");
}

#[test]
fn item_with_nothing_usable_is_empty_mapping() {
    let item = RbwItem { item_type: None, notes: None, fields: None };
    let pairs = load_env_pairs(&item);
    assert!(pairs.is_empty());
}

#[test]
fn existing_notes_of_present_item() {
    let item = RbwItem {
        item_type: None,
        notes: Some("A=1".to_string()),
        fields: None,
    };
    assert_eq!(existing_notes(&Some(item)), "A=1");
}

#[test]
fn existing_notes_of_missing_item_is_empty() {
    assert_eq!(existing_notes(&None), "");
    let item = RbwItem { item_type: None, notes: None, fields: None };
    assert_eq!(existing_notes(&Some(item)), "");
}

#[test]
fn create_payload_primes_empty_password_line() {
    assert_eq!(create_item("A=1\nB=2"), "\nA=1\nB=2\n");
}

#[test]
fn edit_payload_depends_on_entry_kind() {
    assert_eq!(edit_item("A=1", false), "\nA=1\n");
    assert_eq!(edit_item("A=1", true), "A=1\n");
}

#[test]
fn write_namespace_picks_create_for_new() {
    match write_namespace("A=1", true, false) {
        WriteAction::Create { payload } => assert_eq!(payload, "\nA=1\n"),
        WriteAction::Edit { .. } => panic!("expected a create"),
    }
    match write_namespace("A=1", false, true) {
        WriteAction::Edit { payload } => assert_eq!(payload, "A=1\n"),
        WriteAction::Create { .. } => panic!("expected an edit"),
    }
}
