//! Validation passes over parsed documents and clientside maps:
//! completeness, missing-label diff, argument-count parity and the
//! diversity heuristic.

use vstd::prelude::*;
use vstd::string::*;

use crate::parse::{
    map_contains, map_get, parse_clientside, LabelEntryView, LabelMap, ParseError, ParseErrorView,
    spec_parse_clientside,
};
use crate::section::{
    check_string_arguments, spec_section_args_consistent, spec_section_diverse,
    spec_texts_args_consistent, Section, SectionView,
};
use crate::text::str_eq;

verus! {

/// Labels of the sections that are not complete, in document order.
pub open spec fn spec_incomplete_labels(doc: Seq<SectionView>) -> Seq<Seq<char>>
    decreases doc.len(),
{
    if doc.len() == 0 {
        Seq::empty()
    } else {
        let rest = spec_incomplete_labels(doc.drop_first());
        if !doc[0].is_complete() {
            seq![doc[0].label] + rest
        } else {
            rest
        }
    }
}

/// Labels of every section whose translation count differs from the number
/// of known languages, in document order.
pub fn find_incomplete_sections(sections: &Vec<Section>) -> (r: Vec<String>)
    ensures
        r.deep_view() == spec_incomplete_labels(sections.deep_view()),
{
    let ghost doc = sections.deep_view();
    let mut out: Vec<String> = Vec::new();
    let mut i: usize = 0;
    proof {
        assert(doc.skip(0) =~= doc);
        assert(out.deep_view() =~= Seq::<Seq<char>>::empty());
        assert(Seq::<Seq<char>>::empty() + spec_incomplete_labels(doc) =~= spec_incomplete_labels(
            doc,
        ));
    }
    while i < sections.len()
        invariant
            i <= doc.len(),
            doc == sections.deep_view(),
            spec_incomplete_labels(doc) == out.deep_view() + spec_incomplete_labels(
                doc.skip(i as int),
            ),
        decreases doc.len() - i,
    {
        let ghost prev = out.deep_view();
        proof {
            let tail = doc.skip(i as int);
            assert(tail[0] == doc[i as int]);
            assert(tail.drop_first() =~= doc.skip(i + 1));
        }
        if !sections[i].is_complete() {
            out.push(sections[i].label.clone());
            proof {
                assert(out.deep_view() =~= prev + seq![doc[i as int].label]);
                assert(prev + (seq![doc[i as int].label] + spec_incomplete_labels(
                    doc.skip(i + 1),
                )) =~= out.deep_view() + spec_incomplete_labels(doc.skip(i + 1)));
            }
        }
        i = i + 1;
    }
    proof {
        assert(doc.skip(i as int).len() == 0);
        assert(out.deep_view() + spec_incomplete_labels(doc.skip(i as int)) =~= out.deep_view());
    }
    out
}

/// Labels of the first map that are absent from the second, in the first
/// map's order.
pub open spec fn spec_missing_labels(
    first: Seq<LabelEntryView>,
    second: Seq<LabelEntryView>,
) -> Seq<Seq<char>>
    decreases first.len(),
{
    if first.len() == 0 {
        Seq::empty()
    } else {
        let rest = spec_missing_labels(first.drop_first(), second);
        if !map_contains(second, first[0].label) {
            seq![first[0].label] + rest
        } else {
            rest
        }
    }
}

/// Parses two clientside texts and lists the labels of the first that are
/// absent from the second; a parse failure of the first text is reported
/// before the second is parsed.
pub fn find_missing_labels(data: &str, second_data: &str) -> (r: Result<Vec<String>, ParseError>)
    ensures
        ({
            let p1 = spec_parse_clientside(data@);
            let p2 = spec_parse_clientside(second_data@);
            match r {
                Ok(v) => p1 matches Ok(m1) && p2 matches Ok(m2) && v.deep_view()
                    == spec_missing_labels(m1, m2),
                Err(e) => if p1 is Err {
                    p1 == Err::<Seq<LabelEntryView>, ParseErrorView>(e@)
                } else {
                    p2 == Err::<Seq<LabelEntryView>, ParseErrorView>(e@)
                },
            }
        }),
{
    let first = match parse_clientside(data) {
        Ok(m) => m,
        Err(e) => {
            return Err(e);
        },
    };
    let second = match parse_clientside(second_data) {
        Ok(m) => m,
        Err(e) => {
            return Err(e);
        },
    };
    let ghost m1 = first@;
    let ghost m2 = second@;
    let mut out: Vec<String> = Vec::new();
    let mut i: usize = 0;
    proof {
        assert(m1.skip(0) =~= m1);
        assert(out.deep_view() =~= Seq::<Seq<char>>::empty());
        assert(Seq::<Seq<char>>::empty() + spec_missing_labels(m1, m2) =~= spec_missing_labels(
            m1,
            m2,
        ));
    }
    while i < first.entries.len()
        invariant
            i <= m1.len(),
            m1 == first@,
            m2 == second@,
            m1.len() == first.entries@.len(),
            spec_missing_labels(m1, m2) == out.deep_view() + spec_missing_labels(
                m1.skip(i as int),
                m2,
            ),
        decreases m1.len() - i,
    {
        let ghost prev = out.deep_view();
        proof {
            let tail = m1.skip(i as int);
            assert(tail[0] == m1[i as int]);
            assert(tail.drop_first() =~= m1.skip(i + 1));
        }
        if !second.contains_label(first.entries[i].label.as_str()) {
            out.push(first.entries[i].label.clone());
            proof {
                assert(out.deep_view() =~= prev + seq![m1[i as int].label]);
                assert(prev + (seq![m1[i as int].label] + spec_missing_labels(m1.skip(i + 1), m2))
                    =~= out.deep_view() + spec_missing_labels(m1.skip(i + 1), m2));
            }
        }
        i = i + 1;
    }
    proof {
        assert(m1.skip(i as int).len() == 0);
        assert(out.deep_view() + spec_missing_labels(m1.skip(i as int), m2) =~= out.deep_view());
    }
    Ok(out)
}

/// The label of the first section whose texts disagree on some placeholder
/// count, if any.
pub open spec fn spec_first_args_mismatch(doc: Seq<SectionView>) -> Option<Seq<char>>
    decreases doc.len(),
{
    if doc.len() == 0 {
        None
    } else if !spec_section_args_consistent(doc[0].translations) {
        Some(doc[0].label)
    } else {
        spec_first_args_mismatch(doc.drop_first())
    }
}

/// Checks argument-count parity across a whole document, failing with
/// `ArgumentMismatch` naming the first offending section's label.
pub fn check_arguments(sections: &Vec<Section>) -> (r: Result<(), ParseError>)
    ensures
        match spec_first_args_mismatch(sections.deep_view()) {
            None => r is Ok,
            Some(l) => r matches Err(e) && e@ == ParseErrorView::ArgumentMismatch(l),
        },
{
    let ghost doc = sections.deep_view();
    let mut i: usize = 0;
    proof {
        assert(doc.skip(0) =~= doc);
    }
    while i < sections.len()
        invariant
            i <= doc.len(),
            doc == sections.deep_view(),
            spec_first_args_mismatch(doc) == spec_first_args_mismatch(doc.skip(i as int)),
        decreases doc.len() - i,
    {
        proof {
            let tail = doc.skip(i as int);
            assert(tail[0] == doc[i as int]);
            assert(tail.drop_first() =~= doc.skip(i + 1));
        }
        if !sections[i].check_translations_arguments() {
            return Err(ParseError::ArgumentMismatch(sections[i].label.clone()));
        }
        i = i + 1;
    }
    proof {
        assert(doc.skip(i as int).len() == 0);
    }
    Ok(())
}

/// The label of the first entry of the first map whose text disagrees on
/// some placeholder count with the same label's text in the second map, if
/// any; labels absent from the second map are not compared.
pub open spec fn spec_first_map_args_mismatch(
    first: Seq<LabelEntryView>,
    second: Seq<LabelEntryView>,
) -> Option<Seq<char>>
    decreases first.len(),
{
    if first.len() == 0 {
        None
    } else if map_contains(second, first[0].label) && !spec_texts_args_consistent(
        first[0].text,
        map_get(second, first[0].label),
    ) {
        Some(first[0].label)
    } else {
        spec_first_map_args_mismatch(first.drop_first(), second)
    }
}

/// Checks argument-count parity between two clientside maps, failing with
/// `ArgumentMismatch` naming the first offending label.
pub fn check_maps_arguments(first: &LabelMap, second: &LabelMap) -> (r: Result<(), ParseError>)
    ensures
        match spec_first_map_args_mismatch(first@, second@) {
            None => r is Ok,
            Some(l) => r matches Err(e) && e@ == ParseErrorView::ArgumentMismatch(l),
        },
{
    let ghost m1 = first@;
    let ghost m2 = second@;
    let mut i: usize = 0;
    proof {
        assert(m1.skip(0) =~= m1);
    }
    while i < first.entries.len()
        invariant
            i <= m1.len(),
            m1 == first@,
            m2 == second@,
            m1.len() == first.entries@.len(),
            spec_first_map_args_mismatch(m1, m2) == spec_first_map_args_mismatch(
                m1.skip(i as int),
                m2,
            ),
        decreases m1.len() - i,
    {
        proof {
            let tail = m1.skip(i as int);
            assert(tail[0] == m1[i as int]);
            assert(tail.drop_first() =~= m1.skip(i + 1));
        }
        match second.get(first.entries[i].label.as_str()) {
            Some(t) => {
                if !check_string_arguments(first.entries[i].text.as_str(), t.as_str()) {
                    return Err(ParseError::ArgumentMismatch(first.entries[i].label.clone()));
                }
            },
            None => {},
        }
        i = i + 1;
    }
    proof {
        assert(m1.skip(i as int).len() == 0);
    }
    Ok(())
}

/// Labels of the sections flagged by the diversity heuristic, in document
/// order.
pub open spec fn spec_undiverse_labels(doc: Seq<SectionView>) -> Seq<Seq<char>>
    decreases doc.len(),
{
    if doc.len() == 0 {
        Seq::empty()
    } else {
        let rest = spec_undiverse_labels(doc.drop_first());
        if !spec_section_diverse(doc[0].translations) {
            seq![doc[0].label] + rest
        } else {
            rest
        }
    }
}

/// Labels of every section whose texts are byte-identical — the heuristic
/// that those entries were never actually translated.
pub fn find_sections_without_diversity(sections: &Vec<Section>) -> (r: Vec<String>)
    ensures
        r.deep_view() == spec_undiverse_labels(sections.deep_view()),
{
    let ghost doc = sections.deep_view();
    let mut out: Vec<String> = Vec::new();
    let mut i: usize = 0;
    proof {
        assert(doc.skip(0) =~= doc);
        assert(out.deep_view() =~= Seq::<Seq<char>>::empty());
        assert(Seq::<Seq<char>>::empty() + spec_undiverse_labels(doc) =~= spec_undiverse_labels(
            doc,
        ));
    }
    while i < sections.len()
        invariant
            i <= doc.len(),
            doc == sections.deep_view(),
            spec_undiverse_labels(doc) == out.deep_view() + spec_undiverse_labels(
                doc.skip(i as int),
            ),
        decreases doc.len() - i,
    {
        let ghost prev = out.deep_view();
        proof {
            let tail = doc.skip(i as int);
            assert(tail[0] == doc[i as int]);
            assert(tail.drop_first() =~= doc.skip(i + 1));
        }
        if !sections[i].check_translations_diversity() {
            out.push(sections[i].label.clone());
            proof {
                assert(out.deep_view() =~= prev + seq![doc[i as int].label]);
                assert(prev + (seq![doc[i as int].label] + spec_undiverse_labels(doc.skip(i + 1)))
                    =~= out.deep_view() + spec_undiverse_labels(doc.skip(i + 1)));
            }
        }
        i = i + 1;
    }
    proof {
        assert(doc.skip(i as int).len() == 0);
        assert(out.deep_view() + spec_undiverse_labels(doc.skip(i as int)) =~= out.deep_view());
    }
    out
}

/// Texts of the first map that reappear byte-identical under the same label
/// in the second map, in the first map's order.
pub open spec fn spec_identical_texts(
    first: Seq<LabelEntryView>,
    second: Seq<LabelEntryView>,
) -> Seq<Seq<char>>
    decreases first.len(),
{
    if first.len() == 0 {
        Seq::empty()
    } else {
        let rest = spec_identical_texts(first.drop_first(), second);
        if map_contains(second, first[0].label) && map_get(second, first[0].label)
            == first[0].text {
            seq![first[0].text] + rest
        } else {
            rest
        }
    }
}

/// Texts shared byte-identically by both maps under one label — the
/// clientside diversity heuristic.
pub fn find_identical_translations(first: &LabelMap, second: &LabelMap) -> (r: Vec<String>)
    ensures
        r.deep_view() == spec_identical_texts(first@, second@),
{
    let ghost m1 = first@;
    let ghost m2 = second@;
    let mut out: Vec<String> = Vec::new();
    let mut i: usize = 0;
    proof {
        assert(m1.skip(0) =~= m1);
        assert(out.deep_view() =~= Seq::<Seq<char>>::empty());
        assert(Seq::<Seq<char>>::empty() + spec_identical_texts(m1, m2) =~= spec_identical_texts(
            m1,
            m2,
        ));
    }
    while i < first.entries.len()
        invariant
            i <= m1.len(),
            m1 == first@,
            m2 == second@,
            m1.len() == first.entries@.len(),
            spec_identical_texts(m1, m2) == out.deep_view() + spec_identical_texts(
                m1.skip(i as int),
                m2,
            ),
        decreases m1.len() - i,
    {
        let ghost prev = out.deep_view();
        proof {
            let tail = m1.skip(i as int);
            assert(tail[0] == m1[i as int]);
            assert(tail.drop_first() =~= m1.skip(i + 1));
        }
        let mut hit = false;
        match second.get(first.entries[i].label.as_str()) {
            Some(t) => {
                if str_eq(t.as_str(), first.entries[i].text.as_str()) {
                    hit = true;
                }
            },
            None => {},
        }
        if hit {
            out.push(first.entries[i].text.clone());
            proof {
                assert(out.deep_view() =~= prev + seq![m1[i as int].text]);
                assert(prev + (seq![m1[i as int].text] + spec_identical_texts(m1.skip(i + 1), m2))
                    =~= out.deep_view() + spec_identical_texts(m1.skip(i + 1), m2));
            }
        }
        i = i + 1;
    }
    proof {
        assert(m1.skip(i as int).len() == 0);
        assert(out.deep_view() + spec_identical_texts(m1.skip(i as int), m2) =~= out.deep_view());
    }
    out
}

} // verus!
