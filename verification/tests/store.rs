use envrbw::store::{parse, serialize, update, remove, EnvMap};

#[test]
fn parse_basic() {
    let m = parse("A=1\nB=hello=world\n");
    assert_eq!(m.get("A").unwrap().as_str(), "1");
    assert_eq!(m.get("B").unwrap().as_str(), "hello=world");
}

#[test]
fn parse_skips_comments_and_blanks() {
    let m = parse("# comment\n\nA=1\n");
    assert_eq!(m.len(), 1);
    assert_eq!(m.get("A").unwrap().as_str(), "1");
}

#[test]
fn roundtrip() {
    let original = "A=1\nB=2\n";
    let m = parse(original);
    let s = serialize(&m);
    assert_eq!(s, "A=1\nB=2");
}

#[test]
fn update_existing() {
    let s = update("A=1\nB=2", "A", "99");
    let m = parse(&s);
    assert_eq!(m.get("A").unwrap().as_str(), "99");
    assert_eq!(m.get("B").unwrap().as_str(), "2");
}

#[test]
fn remove_key() {
    let s = remove("A=1\nB=2", "A").unwrap();
    let m = parse(&s);
    assert!(!m.contains_key("A"));
    assert_eq!(m.get("B").unwrap().as_str(), "2");
}

#[test]
fn remove_missing_returns_none() {
    assert!(remove("A=1", "MISSING").is_none());
}

#[test]
fn parse_empty_text_is_empty_mapping() {
    let m = parse("");
    assert_eq!(m.len(), 0);
    assert!(m.is_empty());
}

#[test]
fn parse_lines_without_equals_are_skipped() {
    let m = parse("no separator here\nA=1");
    assert_eq!(m.len(), 1);
    assert_eq!(m.get("A").unwrap().as_str(), "1");
}

#[test]
fn parse_last_duplicate_wins() {
    let m = parse("A=1\nA=2\nA=3");
    assert_eq!(m.len(), 1);
    assert_eq!(m.get("A").unwrap().as_str(), "3");
}

#[test]
fn parse_trims_surrounding_whitespace() {
    let m = parse("  A=1  \n\tB=2\r\n");
    assert_eq!(m.get("A").unwrap().as_str(), "1");
    assert_eq!(m.get("B").unwrap().as_str(), "2");
}

#[test]
fn parse_comment_with_equals_is_not_a_key() {
    let m = parse("# X=1\n   \nY=2");
    assert!(!m.contains_key("# X"));
    assert!(!m.contains_key("X"));
    assert_eq!(m.len(), 1);
    assert_eq!(m.get("Y").unwrap().as_str(), "2");
}

#[test]
fn serialize_sorts_keys_ascending() {
    let mut m = EnvMap::new();
    m.insert("B".to_string(), "2".to_string());
    m.insert("A".to_string(), "1".to_string());
    m.insert("C".to_string(), "3".to_string());
    assert_eq!(serialize(&m), "A=1\nB=2\nC=3");
}

#[test]
fn serialize_empty_mapping_is_empty_string() {
    let m = EnvMap::new();
    assert_eq!(serialize(&m), "");
}

#[test]
fn serialize_two_keys_example() {
    let mut m = EnvMap::new();
    m.insert("A".to_string(), "1".to_string());
    m.insert("B".to_string(), "2".to_string());
    assert_eq!(serialize(&m), "A=1\nB=2");
}

#[test]
fn update_inserts_missing_key() {
    let s = update("", "K", "v");
    assert_eq!(s, "K=v");
    let m = parse(&s);
    assert_eq!(m.get("K").unwrap().as_str(), "v");
}

#[test]
fn update_normalizes_comments_and_order() {
    let s = update("# note\nB=2\nA=1\n", "C", "3");
    assert_eq!(s, "A=1\nB=2\nC=3");
}

#[test]
fn update_twice_same_as_once() {
    let once = update("A=1\nB=2", "A", "99");
    let twice = update(&once, "A", "99");
    assert_eq!(once, twice);
}

#[test]
fn normalize_twice_same_as_once() {
    let text = "# c\nB= 2\n\nA=x=y\n";
    let s1 = serialize(&parse(text));
    let s2 = serialize(&parse(&s1));
    assert_eq!(s1, s2);
}

#[test]
fn remove_then_parse_drops_only_that_key() {
    let s = remove("A=1\nB=2\nC=3", "B").unwrap();
    assert_eq!(s, "A=1\nC=3");
}

#[test]
fn envmap_insert_overwrites_and_keeps_length() {
    let mut m = EnvMap::new();
    m.insert("K".to_string(), "1".to_string());
    m.insert("K".to_string(), "2".to_string());
    assert_eq!(m.len(), 1);
    assert_eq!(m.get("K").unwrap().as_str(), "2");
}

#[test]
fn envmap_remove_key_reports_presence() {
    let mut m = EnvMap::new();
    m.insert("K".to_string(), "1".to_string());
    assert!(m.remove_key("K"));
    assert!(!m.remove_key("K"));
    assert!(m.is_empty());
}

#[test]
fn envmap_entries_are_key_sorted() {
    let mut m = EnvMap::new();
    m.insert("z".to_string(), "26".to_string());
    m.insert("a".to_string(), "1".to_string());
    let entries = m.entries();
    assert_eq!(entries.len(), 2);
    assert_eq!(entries[0].0.as_str(), "a");
    assert_eq!(entries[1].0.as_str(), "z");
}

#[test]
fn value_may_contain_equals_after_roundtrip() {
    let s = update("", "URL", "https://example.test/?a=b=c");
    let m = parse(&s);
    assert_eq!(m.get("URL").unwrap().as_str(), "https://example.test/?a=b=c");
}

#[test]
fn parse_trims_unicode_whitespace() {
    let m = parse("\u{a0}A=1\u{3000}\nB=2\u{2003}");
    assert_eq!(m.get("A").unwrap().as_str(), "1");
    assert_eq!(m.get("B").unwrap().as_str(), "2");
}

#[test]
fn parse_handles_crlf_line_endings() {
    let m = parse("A=1\r\nB=2\r\n");
    assert_eq!(m.len(), 2);
    assert_eq!(m.get("A").unwrap().as_str(), "1");
    assert_eq!(m.get("B").unwrap().as_str(), "2");
}
