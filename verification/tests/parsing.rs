use loctab::parse::{extract_text, omit_line, parse_clientside, parse_data, ParseError};
use loctab::section::Language::{EN, PL};
use loctab::section::Section;

static FILE_STR: &str = "\
        #hello\n\
        section\n\
            TXT\t\"s1\"\n\
            PL\t\"pl1\"\n\
            EN\t\"en1\"\n\
        end\n
        section\n\
            TXT\t\"s2\"\n\
            PL\t\"pl2\"\n\
            EN\t\"en2\"\n\
        end";

#[test]
fn omit_line_if_empty() {
    assert_eq!(omit_line(""), true);
}

#[test]
fn omit_line_if_commented() {
    assert_eq!(omit_line("#test"), true);
}

#[test]
fn not_omit_line_if_normal() {
    assert_eq!(omit_line("PL\t\"Hello, world!\""), false);
}

#[test]
fn extract_works() {
    assert_eq!(extract_text("TXT\t\"\\asd\"", "TXT"), Some("asd"));
}

#[test]
fn none_if_no_keyword_while_extract() {
    assert_eq!(extract_text("asd", "TXT"), None);
}

#[test]
fn none_if_no_tab_while_extract() {
    assert_eq!(extract_text("TXT\"\\asd\"", "TXT"), None);
}

#[test]
fn parsing_works() {
    let res = parse_data(FILE_STR);

    let mut sections = vec![Section::new(), Section::new()];
    sections[0].label = "s1".to_string();
    sections[1].label = "s2".to_string();

    sections[0].translations.insert(PL, "pl1".to_string());
    sections[0].translations.insert(EN, "en1".to_string());

    sections[1].translations.insert(PL, "pl2".to_string());
    sections[1].translations.insert(EN, "en2".to_string());

    assert_eq!(res.unwrap(), sections);
}

#[test]
fn error_if_duplicate() {
    let p = parse_data(
        "section\n\
            TXT\t\"s1\"\n\
            PL\t\"pl1\"\n\
            PL\t\"pl2\"\n\
        end",
    );

    assert!(match p {
        Err(ParseError::LanguageDuplicate(PL, label)) => label == "s1".to_owned(),
        _ => false,
    })
}

#[test]
fn syntax_error_without_open_section() {
    let p = parse_data("PL\t\"x\"");
    assert!(match p {
        Err(ParseError::Syntax(keyword, payload)) => keyword == "PL" && payload == "x",
        _ => false,
    })
}

#[test]
fn empty_error_on_label_line_without_tab() {
    let p = parse_data("section\nTXT \"x\"");
    assert!(matches!(p, Err(ParseError::Empty(_))));
}

#[test]
fn empty_error_on_empty_payload() {
    let p = parse_data("section\nTXT\t\"\"");
    assert!(matches!(p, Err(ParseError::Empty(_))));
}

#[test]
fn unknown_lines_are_ignored() {
    let res = parse_data("section\nTXT\t\"s1\"\nwhatever else\nend").unwrap();
    assert_eq!(res.len(), 1);
    assert_eq!(res[0].label, "s1");
    assert_eq!(res[0].translations.len(), 0);
}

#[test]
fn clientside_splits_on_first_tab() {
    let m = parse_clientside("a\t1\nb\t2").unwrap();
    assert_eq!(m.len(), 2);
    assert_eq!(m.get("a"), Some(&"1".to_string()));
    assert_eq!(m.get("b"), Some(&"2".to_string()));
    assert_eq!(m.get("c"), None);
}

#[test]
fn clientside_value_may_be_empty() {
    let m = parse_clientside("# comment\nkey").unwrap();
    assert_eq!(m.len(), 1);
    assert_eq!(m.get("key"), Some(&String::new()));
}

#[test]
fn empty_text_parses_to_empty_document() {
    assert_eq!(parse_data("").unwrap(), Vec::<Section>::new());
    assert_eq!(parse_data("\n# only a comment\n").unwrap(), Vec::<Section>::new());
}

#[test]
fn lines_are_trimmed_before_matching() {
    let res = parse_data("  section  \n\t TXT\t\"s1\" \r\nend").unwrap();
    assert_eq!(res.len(), 1);
    assert_eq!(res[0].label, "s1");
}

#[test]
fn keywords_match_by_prefix() {
    let res = parse_data("sectionXYZ\nTXT\t\"s1\"\nPLONK\t\"pl1\"\nend").unwrap();
    assert_eq!(res.len(), 1);
    assert_eq!(res[0].label, "s1");
    assert_eq!(
        res[0].translations.get(PL),
        Some(&"pl1".to_string())
    );
}

#[test]
fn clientside_duplicate_label_fails() {
    let p = parse_clientside("a\t1\na\t2");
    assert!(match p {
        Err(ParseError::LabelDuplicate(label)) => label == "a",
        _ => false,
    })
}
