use locales::locale_files::locale_of_file;

fn locale(name: &str) -> Option<String> {
    locale_of_file(name)
}

#[test]
fn yaml_files_name_their_locale() {
    assert_eq!(locale("en.yml"), Some("en".to_string()));
    assert_eq!(locale("de.yaml"), Some("de".to_string()));
    assert_eq!(locale("pt_BR.yml"), Some("pt_BR".to_string()));
}

#[test]
fn prefix_stops_at_first_dot() {
    assert_eq!(locale("en.errors.yml"), Some("en".to_string()));
    assert_eq!(locale("fr.a.b.yaml"), Some("fr".to_string()));
    assert_eq!(locale(".hidden.yml"), Some(".hidden".to_string()));
    assert_eq!(locale("..yml"), Some(".".to_string()));
}

#[test]
fn other_files_are_skipped() {
    assert_eq!(locale("en.json"), None);
    assert_eq!(locale("en.yml.bak"), None);
    assert_eq!(locale("yml"), None);
    assert_eq!(locale(".yml"), None);
    assert_eq!(locale("en.YML"), None);
    assert_eq!(locale("en."), None);
    assert_eq!(locale(""), None);
}

#[test]
fn non_ascii_names() {
    assert_eq!(locale("日本.yml"), Some("日本".to_string()));
}
