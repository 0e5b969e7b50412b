use locales::locale_data::{
    check_missing_sections_and_keys, collect_section_keys, LocaleSections, Missing, SectionKeys,
};

fn section(name: &str, keys: &[&str]) -> SectionKeys {
    let keys: Vec<String> = keys.iter().map(|k| k.to_string()).collect();
    SectionKeys { name: name.to_string(), plain_keys: keys.clone(), keys }
}

fn locale(name: &str, sections: Vec<SectionKeys>) -> LocaleSections {
    LocaleSections { name: name.to_string(), sections }
}

fn sample() -> Vec<LocaleSections> {
    vec![
        locale("en", vec![section("common", &["hello", "bye"]), section("menu", &["open"])]),
        locale("de", vec![section("common", &["hello"])]),
        locale("fr", vec![]),
    ]
}

fn keys_of(groups: &[SectionKeys], name: &str) -> Vec<String> {
    let mut keys: Vec<String> = groups
        .iter()
        .filter(|g| g.name == name)
        .flat_map(|g| g.keys.iter().cloned())
        .collect();
    keys.sort();
    keys.dedup();
    keys
}

#[test]
fn section_keys_are_gathered_over_locales() {
    let groups = collect_section_keys(&vec![
        locale("en", vec![section("common", &["hello"]), section("menu", &["open"])]),
        locale("de", vec![section("common", &["bye", "hello"])]),
    ]);
    assert_eq!(keys_of(&groups, "common"), ["bye", "hello"]);
    assert_eq!(keys_of(&groups, "menu"), ["open"]);
    assert_eq!(keys_of(&groups, "other"), Vec::<String>::new());
}

#[test]
fn no_locales_give_no_sections() {
    assert!(collect_section_keys(&vec![]).is_empty());
    assert!(check_missing_sections_and_keys(&vec![]).is_empty());
}

#[test]
fn missing_sections_and_keys_are_reported() {
    let report = check_missing_sections_and_keys(&sample());
    let expected = [
        Missing::Key { locale: "de".into(), section: "common".into(), key: "bye".into() },
        Missing::Section { locale: "de".into(), section: "menu".into() },
        Missing::Section { locale: "fr".into(), section: "common".into() },
        Missing::Section { locale: "fr".into(), section: "menu".into() },
    ];
    for m in &expected {
        assert!(report.contains(m), "{m:?} not in {report:?}");
    }
    for m in &report {
        assert!(expected.contains(m), "unexpected {m:?}");
    }
    assert_eq!(report.len(), expected.len(), "an entry is repeated in {report:?}");
}

#[test]
fn complete_locales_report_nothing() {
    let locales = vec![
        locale("en", vec![section("common", &["hello", "bye"])]),
        locale("de", vec![section("common", &["bye", "hello"])]),
    ];
    assert!(check_missing_sections_and_keys(&locales).is_empty());
}
