use locales::locale_data::{contains_name, insert_replacing, merge_first_wins};

fn entry(name: &str, v: i32) -> (String, i32) {
    (name.to_string(), v)
}

#[test]
fn merge_keeps_first() {
    let mut acc = vec![entry("a", 1), entry("b", 2)];
    let dups = merge_first_wins(&mut acc, vec![entry("b", 20), entry("c", 3), entry("c", 30)]);
    assert_eq!(acc, vec![entry("a", 1), entry("b", 2), entry("c", 3)]);
    assert_eq!(dups, vec!["b".to_string(), "c".to_string()]);
}

#[test]
fn insert_replaces_and_reports() {
    let mut entries = vec![entry("a", 1)];
    assert!(!insert_replacing(&mut entries, "b".to_string(), 2));
    assert!(insert_replacing(&mut entries, "a".to_string(), 10));
    assert_eq!(entries, vec![entry("a", 10), entry("b", 2)]);
    assert!(contains_name(&entries, &"b".to_string()));
    assert!(!contains_name(&entries, &"z".to_string()));
}
