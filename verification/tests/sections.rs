use loctab::cmd::join_lines;
use loctab::parse::parse_data;
use loctab::section::Language::{EN, PL};
use loctab::section::{Language, Section};

#[test]
fn from_trait_language_works() {
    let pl: Language = Language::from_tag("PL").unwrap();
    let en: Language = Language::from_tag("EN").unwrap();
    assert_eq!(pl, Language::PL);
    assert_eq!(en, Language::EN);
}

#[test]
fn unknown_language_tag_is_rejected() {
    assert_eq!(Language::from_tag("DE"), None);
    assert_eq!(Language::variants_count(), 2);
}

#[test]
fn generates_file_data() {
    let mut section = Section::new();
    section.label = "lab1".to_string();
    section.translations.insert(PL, "tr1".to_string());
    section.translations.insert(EN, "tr2".to_string());

    assert_eq!(
        section.generate(),
        "section\n\tTXT\t\"lab1\"\n\tPL\t\"tr1\"\n\tEN\t\"tr2\"\nend"
    )
}

#[test]
fn generated_section_parses_back() {
    let mut section = Section::new();
    section.label = "greet".to_string();
    section.translations.insert(PL, "czesc".to_string());

    let text = section.generate();
    let parsed = parse_data(&text).unwrap();
    assert_eq!(parsed, vec![section]);
}

#[test]
fn generated_section_parses_back_with_both_languages() {
    let mut section = Section::new();
    section.label = "greet".to_string();
    section.translations.insert(PL, "czesc".to_string());
    section.translations.insert(EN, "hello".to_string());

    let text = section.generate();
    let parsed = parse_data(&text).unwrap();
    assert_eq!(parsed, vec![section]);
}

#[test]
fn insert_replaces_existing_text() {
    let mut section = Section::new();
    let first = section.translations.insert(PL, "old".to_string());
    assert_eq!(first, None);
    let prev = section.translations.insert(PL, "new".to_string());
    assert_eq!(prev, Some("old".to_string()));
    assert_eq!(section.translations.get(PL), Some(&"new".to_string()));
    assert_eq!(section.translations.len(), 1);
}

#[test]
fn join_lines_appends_newlines() {
    let items = vec!["a".to_string(), "b".to_string()];
    assert_eq!(join_lines(&items), "a\nb\n");
}
