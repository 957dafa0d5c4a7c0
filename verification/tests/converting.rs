use loctab::cmd::convert_document;
use loctab::convert::{convert_data, ConvertError};
use loctab::section::Language::PL;
use loctab::section::Section;

#[test]
fn converts() {
    let s = "\
\"hello\";\n\
\"world\";";

    let mut section = Section::new();
    section.label = "hello".to_string();
    section.translations.insert(PL, "world".to_string());

    let convert = convert_data(s, PL);

    assert!(convert.is_ok());
    assert_eq!(convert.unwrap(), vec![section]);
}

#[test]
fn error_if_not_enough_lines() {
    let s = "\
\"hello\";";

    let convert = convert_data(s, PL);
    assert!(convert.is_err());
}

#[test]
fn error_if_empty() {
    let s = "";

    let convert = convert_data(s, PL);
    assert!(convert.is_err());
}

#[test]
fn convert_reports_error_details() {
    assert_eq!(convert_data("", PL), Err(ConvertError::Empty));
    assert_eq!(convert_data("\"only\";", PL), Err(ConvertError::Syntax(1)));
    assert_eq!(
        convert_data("#note\n\"a\";\n\n\"b\";\n\"c\";", PL),
        Err(ConvertError::Syntax(3))
    );
}

#[test]
fn convert_document_serializes_pairs() {
    let out = convert_document("\"hello\";\n\"world\";", PL).unwrap();
    assert_eq!(out, "section\n\tTXT\t\"hello\"\n\tPL\t\"world\"\nend\n\n");
}
