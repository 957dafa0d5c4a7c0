use loctab::cmd::merge_documents;
use loctab::parse::merge_sections;
use loctab::section::Language::{EN, PL};
use loctab::section::{Section, TranslationMap};

#[test]
fn merges_sections_with_different_labels() {
    let mut s1 = Section {
        label: "asd".to_string(),
        translations: TranslationMap::new(),
    };
    let mut s2 = Section {
        label: "asd2".to_string(),
        translations: TranslationMap::new(),
    };
    s1.translations.insert(PL, "pl1".to_string());
    s2.translations.insert(PL, "pl2".to_string());

    let v1 = vec![s1];
    let v2 = vec![s2];

    // result

    let mut res1 = Section {
        label: "asd".to_string(),
        translations: TranslationMap::new(),
    };
    let mut res2 = Section {
        label: "asd2".to_string(),
        translations: TranslationMap::new(),
    };

    res1.translations.insert(PL, "pl1".to_string());
    res2.translations.insert(PL, "pl2".to_string());

    let res_vec = vec![res1, res2];

    assert_eq!(merge_sections(v1, v2), res_vec);
}

#[test]
fn merges_sections_with_duplicated_labels() {
    let mut s1 = Section {
        label: "asd".to_string(),
        translations: TranslationMap::new(),
    };
    let mut s2 = Section {
        label: "asd".to_string(),
        translations: TranslationMap::new(),
    };
    s1.translations.insert(PL, "pl1".to_string());
    s1.translations.insert(EN, "en1".to_string());
    s2.translations.insert(PL, "pl2".to_string());

    let v1 = vec![s1];
    let v2 = vec![s2];

    // result

    let mut res1 = Section {
        label: "asd".to_string(),
        translations: TranslationMap::new(),
    };

    res1.translations.insert(EN, "en1".to_string());
    res1.translations.insert(PL, "pl2".to_string());

    let res_vec = vec![res1];

    assert_eq!(merge_sections(v1, v2), res_vec);
}

#[test]
fn merge_overlay_incoming_wins() {
    let mut base = Section {
        label: "a".to_string(),
        translations: TranslationMap::new(),
    };
    base.translations.insert(PL, "x".to_string());
    base.translations.insert(EN, "y".to_string());

    let mut incoming = Section {
        label: "a".to_string(),
        translations: TranslationMap::new(),
    };
    incoming.translations.insert(PL, "z".to_string());

    let merged = merge_sections(vec![base], vec![incoming]);

    let mut expected = Section {
        label: "a".to_string(),
        translations: TranslationMap::new(),
    };
    expected.translations.insert(PL, "z".to_string());
    expected.translations.insert(EN, "y".to_string());

    assert_eq!(merged, vec![expected]);
}

#[test]
fn merge_appends_unmatched_incoming() {
    let mut base = Section {
        label: "a".to_string(),
        translations: TranslationMap::new(),
    };
    base.translations.insert(PL, "x".to_string());

    let mut incoming = Section {
        label: "b".to_string(),
        translations: TranslationMap::new(),
    };
    incoming.translations.insert(PL, "y".to_string());

    let merged = merge_sections(vec![base], vec![incoming]);

    let mut e1 = Section {
        label: "a".to_string(),
        translations: TranslationMap::new(),
    };
    e1.translations.insert(PL, "x".to_string());
    let mut e2 = Section {
        label: "b".to_string(),
        translations: TranslationMap::new(),
    };
    e2.translations.insert(PL, "y".to_string());

    assert_eq!(merged, vec![e1, e2]);
}

#[test]
fn merge_updates_only_first_of_equal_base_labels() {
    let mut b1 = Section {
        label: "a".to_string(),
        translations: TranslationMap::new(),
    };
    b1.translations.insert(PL, "x1".to_string());
    let mut b2 = Section {
        label: "a".to_string(),
        translations: TranslationMap::new(),
    };
    b2.translations.insert(PL, "x2".to_string());

    let mut incoming = Section {
        label: "a".to_string(),
        translations: TranslationMap::new(),
    };
    incoming.translations.insert(PL, "z".to_string());

    let merged = merge_sections(vec![b1, b2], vec![incoming]);

    assert_eq!(merged.len(), 2);
    assert_eq!(merged[0].translations.get(PL), Some(&"z".to_string()));
    assert_eq!(merged[1].translations.get(PL), Some(&"x2".to_string()));
}

#[test]
fn appended_incoming_receives_later_updates() {
    let mut i1 = Section {
        label: "a".to_string(),
        translations: TranslationMap::new(),
    };
    i1.translations.insert(PL, "x".to_string());
    let mut i2 = Section {
        label: "a".to_string(),
        translations: TranslationMap::new(),
    };
    i2.translations.insert(EN, "y".to_string());

    let merged = merge_sections(vec![], vec![i1, i2]);

    let mut expected = Section {
        label: "a".to_string(),
        translations: TranslationMap::new(),
    };
    expected.translations.insert(PL, "x".to_string());
    expected.translations.insert(EN, "y".to_string());

    assert_eq!(merged, vec![expected]);
}

#[test]
fn merge_documents_end_to_end() {
    let cur = "section\nTXT\t\"a\"\nPL\t\"x\"\nEN\t\"y\"\nend";
    let newer = "section\nTXT\t\"a\"\nPL\t\"z\"\nend";
    let merged = merge_documents(cur, newer).unwrap();
    assert_eq!(
        merged,
        "section\n\tTXT\t\"a\"\n\tPL\t\"z\"\n\tEN\t\"y\"\nend\n\n"
    );
}

#[test]
fn merge_documents_rejects_argument_mismatch() {
    let cur = "section\nTXT\t\"a\"\nPL\t\"Masz %d punktow\"\nend";
    let newer = "section\nTXT\t\"a\"\nEN\t\"You have points\"\nend";
    let merged = merge_documents(cur, newer);
    assert!(match merged {
        Err(loctab::parse::ParseError::ArgumentMismatch(label)) => label == "a",
        _ => false,
    });
}
