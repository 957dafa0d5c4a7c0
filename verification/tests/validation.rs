use loctab::find::{
    check_arguments, check_maps_arguments, find_identical_translations, find_incomplete_sections,
    find_missing_labels, find_sections_without_diversity,
};
use loctab::parse::{parse_clientside, ParseError};
use loctab::section::Language::{EN, PL};
use loctab::section::{check_string_arguments, Section};

#[test]
fn finds_incomplete_translations() {
    let mut s1 = Section::new();
    s1.label = "test".to_string();
    s1.translations.insert(PL, "asd".to_string());

    assert_eq!(
        find_incomplete_sections(&vec![s1]),
        vec!["test".to_string()]
    )
}

#[test]
fn not_return_complete_sections() {
    let mut s1 = Section::new();
    s1.label = "test".to_string();
    s1.translations.insert(PL, "asd".to_string());
    s1.translations.insert(EN, "asd".to_string());

    let empty: Vec<String> = vec![];

    assert_eq!(find_incomplete_sections(&vec![s1]), empty)
}

#[test]
fn one_of_two_languages_is_incomplete() {
    let mut s = Section::new();
    s.label = "x".to_string();
    s.translations.insert(EN, "text".to_string());
    assert!(!s.is_complete());
    s.translations.insert(PL, "tekst".to_string());
    assert!(s.is_complete());
}

#[test]
fn missing_labels_are_listed() {
    let missing = find_missing_labels("a\t1\nb\t2", "a\t9").unwrap();
    assert_eq!(missing, vec!["b".to_string()]);
}

#[test]
fn missing_labels_propagates_parse_errors() {
    let r = find_missing_labels("a\t1\na\t2", "a\t9");
    assert!(matches!(r, Err(ParseError::LabelDuplicate(_))));
}

#[test]
fn argument_counts_must_match() {
    assert!(!check_string_arguments(
        "Masz %d punktow",
        "You have points"
    ));
    assert!(check_string_arguments("Masz %d", "You have %d"));
}

#[test]
fn section_argument_check() {
    let mut s = Section::new();
    s.label = "points".to_string();
    s.translations.insert(PL, "Masz %d punktow".to_string());
    s.translations.insert(EN, "You have points".to_string());
    assert!(!s.check_translations_arguments());

    let mut ok = Section::new();
    ok.label = "points".to_string();
    ok.translations.insert(PL, "Masz %d".to_string());
    ok.translations.insert(EN, "You have %d".to_string());
    assert!(ok.check_translations_arguments());
}

#[test]
fn document_argument_check_names_first_offender() {
    let mut good = Section::new();
    good.label = "a".to_string();
    good.translations.insert(PL, "%s ok".to_string());
    good.translations.insert(EN, "%s fine".to_string());

    let mut bad = Section::new();
    bad.label = "b".to_string();
    bad.translations.insert(PL, "%ld %%".to_string());
    bad.translations.insert(EN, "%%".to_string());

    let r = check_arguments(&vec![good, bad]);
    assert!(match r {
        Err(ParseError::ArgumentMismatch(label)) => label == "b",
        _ => false,
    });
}

#[test]
fn map_argument_check() {
    let first = parse_clientside("hello\tMasz %d punktow").unwrap();
    let second = parse_clientside("hello\tYou have points").unwrap();
    let r = check_maps_arguments(&first, &second);
    assert!(match r {
        Err(ParseError::ArgumentMismatch(label)) => label == "hello",
        _ => false,
    });

    let third = parse_clientside("hello\tYou have %d points").unwrap();
    assert!(check_maps_arguments(&first, &third).is_ok());
}

#[test]
fn diversity_flags_identical_sections() {
    let mut same = Section::new();
    same.label = "same".to_string();
    same.translations.insert(PL, "text".to_string());
    same.translations.insert(EN, "text".to_string());

    let mut diverse = Section::new();
    diverse.label = "diverse".to_string();
    diverse.translations.insert(PL, "tekst".to_string());
    diverse.translations.insert(EN, "text".to_string());

    assert!(!same.check_translations_diversity());
    assert!(diverse.check_translations_diversity());

    let flagged = find_sections_without_diversity(&vec![same, diverse]);
    assert_eq!(flagged, vec!["same".to_string()]);
}

#[test]
fn diversity_flags_identical_map_values() {
    let first = parse_clientside("a\tone\nb\ttwo").unwrap();
    let second = parse_clientside("a\tone\nb\tdeux").unwrap();
    let identical = find_identical_translations(&first, &second);
    assert_eq!(identical, vec!["one".to_string()]);
}
