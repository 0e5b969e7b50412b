use locales::locale_entries::{
    add_file_entries, locale_sections, read_locale_file, FileItem, LocaleEntries, Notice,
};
use locales::locale_data::{check_missing_sections_and_keys, Missing};
use locales::yaml::{YamlErrorKind, YamlNode};

fn items(text: &str) -> Vec<FileItem> {
    read_locale_file(text.as_bytes()).unwrap()
}

fn keys(node: &YamlNode) -> Vec<String> {
    match node {
        YamlNode::Mapping(pairs) => pairs
            .iter()
            .map(|(k, _)| match k {
                YamlNode::Str(s) => s.clone(),
                _ => String::new(),
            })
            .collect(),
        _ => panic!("not a mapping: {node:?}"),
    }
}

fn shape(items: &[FileItem]) -> Vec<String> {
    items
        .iter()
        .map(|i| match i {
            FileItem::Rule(n, _) => format!("rule {n}"),
            FileItem::Section(n, _) => format!("section {n}"),
            FileItem::InvalidRules => "invalid rules".to_string(),
            FileItem::InvalidRule => "invalid rule".to_string(),
            FileItem::InvalidSections => "invalid sections".to_string(),
            FileItem::InvalidSection => "invalid section".to_string(),
        })
        .collect()
}

#[test]
fn rules_then_sections() {
    let it = items("$sections:\n  common:\n    hello: Hi\n    bye: Bye\n$rules:\n  plural:\n    args: {}\n");
    assert_eq!(shape(&it), ["rule plural", "section common"]);
    match &it[1] {
        FileItem::Section(_, node) => assert_eq!(keys(node), ["hello", "bye"]),
        other => panic!("{other:?}"),
    }
}

#[test]
fn rules_that_are_not_a_mapping_skip_the_file() {
    let it = items("$rules: 5\n$sections:\n  a:\n    k: v\n");
    assert_eq!(shape(&it), ["invalid rules"]);
}

#[test]
fn malformed_entries_are_reported() {
    let it = items("$rules:\n  r1: 3\n  r2:\n    x: y\n  7:\n    z: w\n$sections: [1, 2]\n");
    assert_eq!(shape(&it), ["invalid rule", "rule r2", "invalid rule", "invalid sections"]);
}

#[test]
fn documents_without_either_key() {
    assert!(items("other: 1\n").is_empty());
    assert!(items("- 1\n- 2\n").is_empty());
    assert!(items("").is_empty());
}

#[test]
fn tags_are_looked_through() {
    let it = items("$sections: !tagged\n  s: !more\n    k: v\n");
    assert_eq!(shape(&it), ["section s"]);
    match &it[0] {
        FileItem::Section(_, node) => assert_eq!(keys(node), ["k"]),
        other => panic!("{other:?}"),
    }
}

#[test]
fn merge_keys_are_applied() {
    let it = items("base: &b\n  k: v\n$sections:\n  s:\n    <<: *b\n    j: w\n");
    match &it[0] {
        FileItem::Section(n, node) => {
            assert_eq!(n, "s");
            let mut ks = keys(node);
            ks.sort();
            assert_eq!(ks, ["j", "k"]);
        }
        other => panic!("{other:?}"),
    }
}

#[test]
fn yaml_errors_have_their_kind() {
    assert_eq!(read_locale_file(b"a: [").unwrap_err().kind, YamlErrorKind::Syntax);
    assert_eq!(read_locale_file(b"a:\n  <<: 5\n").unwrap_err().kind, YamlErrorKind::Merge);
}

#[test]
fn later_files_replace_earlier_entries() {
    let mut acc = LocaleEntries::new();
    let first = add_file_entries(
        &mut acc,
        items("$rules:\n  r:\n    a: 1\n$sections:\n  s:\n    x: 1\n  t:\n    y: 1\n"),
    );
    assert!(first.is_empty());
    let second = add_file_entries(&mut acc, items("$sections:\n  s:\n    z: 1\n  u: 3\n"));
    assert_eq!(second, vec![Notice::DuplicateSection("s".to_string()), Notice::InvalidSection]);
    assert_eq!(acc.rules.len(), 1);
    let names: Vec<&str> = acc.sections.iter().map(|(n, _)| n.as_str()).collect();
    assert_eq!(names, ["s", "t"]);
    assert_eq!(keys(&acc.sections[0].1), ["z"]);
}

#[test]
fn section_keys_of_a_locale() {
    let mut acc = LocaleEntries::new();
    add_file_entries(&mut acc, items("$sections:\n  s:\n    a: 1\n    2: x\n  t: {}\n"));
    let ls = locale_sections(&"en".to_string(), &acc);
    assert_eq!(ls.name, "en");
    assert_eq!(ls.sections.len(), 2);
    assert_eq!(ls.sections[0].name, "s");
    assert_eq!(ls.sections[0].keys, ["a", ""]);
    assert_eq!(ls.sections[0].plain_keys, ["a"]);
    assert_eq!(ls.sections[1].name, "t");
    assert!(ls.sections[1].keys.is_empty());
}

#[test]
fn keys_that_are_not_plain_strings_are_never_found() {
    let mut en = LocaleEntries::new();
    add_file_entries(&mut en, items("$sections:\n  s:\n    a: 1\n    !t b: 2\n    3: x\n"));
    let mut de = LocaleEntries::new();
    add_file_entries(&mut de, items("$sections:\n  s:\n    a: 1\n"));
    let report = check_missing_sections_and_keys(&vec![
        locale_sections(&"en".to_string(), &en),
        locale_sections(&"de".to_string(), &de),
    ]);
    let key = |l: &str, k: &str| Missing::Key { locale: l.into(), section: "s".into(), key: k.into() };
    for m in [key("en", "b"), key("en", ""), key("de", "b"), key("de", "")] {
        assert!(report.contains(&m), "{m:?} not in {report:?}");
    }
    assert_eq!(report.len(), 4);
}
