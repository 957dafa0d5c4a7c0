//! Laws relating the serializer to the parser: a serialized section parses
//! back to itself, and a repeated language line is always detected.

use vstd::prelude::*;

use crate::parse::{
    spec_extract, spec_keyword_action, spec_omit_line, spec_parse, spec_parse_lines, spec_step,
    KeywordActions, ParseErrorView,
};
use crate::section::{
    spec_generate, spec_language_keyword, spec_tagged_line, Language, SectionView,
    TranslationsView,
};
use crate::text::{
    char_pred, drop_leading, drop_trailing, is_mark_char, is_ws_char, lemma_first_where_is,
    mark_pred, spec_split, spec_strip_marks, spec_trim, ws_pred,
};

verus! {

/// `c` occurs nowhere in `s`.
pub open spec fn lacks(s: Seq<char>, c: char) -> bool {
    forall|i: int| 0 <= i < s.len() ==> s[i] != c
}

/// A label or translation text that survives a serialization round trip:
/// non-empty, free of newlines and tabs, and not bounded by a quote or
/// backslash character (which the payload extraction would strip).
pub open spec fn text_ok(t: Seq<char>) -> bool {
    &&& t.len() > 0
    &&& lacks(t, '\n')
    &&& lacks(t, '\t')
    &&& !is_mark_char(t[0])
    &&& !is_mark_char(t[t.len() - 1])
}

/// A section whose serialized form parses back to itself.
pub open spec fn spec_serializable(s: SectionView) -> bool {
    &&& text_ok(s.label)
    &&& (s.translations.pl matches Some(t) ==> text_ok(t))
    &&& (s.translations.en matches Some(t) ==> text_ok(t))
}

pub proof fn lemma_lacks_concat(a: Seq<char>, b: Seq<char>, c: char)
    ensures
        lacks(a + b, c) == (lacks(a, c) && lacks(b, c)),
{
    if lacks(a, c) && lacks(b, c) {
        assert forall|i: int| 0 <= i < (a + b).len() implies (a + b)[i] != c by {
            if i < a.len() {
                assert((a + b)[i] == a[i]);
            } else {
                assert((a + b)[i] == b[i - a.len()]);
            }
        }
    }
    if lacks(a + b, c) {
        assert forall|i: int| 0 <= i < a.len() implies a[i] != c by {
            assert((a + b)[i] == a[i]);
        }
        assert forall|i: int| 0 <= i < b.len() implies b[i] != c by {
            assert((a + b)[a.len() + i] == b[i]);
        }
    }
}

/// Splitting at the first newline of `a + '\n' + b` when `a` holds none.
pub proof fn lemma_split_concat_line(a: Seq<char>, b: Seq<char>)
    requires
        lacks(a, '\n'),
    ensures
        spec_split(a + seq!['\n'] + b, '\n') == seq![a] + spec_split(b, '\n'),
{
    let s = a + seq!['\n'] + b;
    assert forall|j: int| 0 <= j < a.len() implies !(char_pred('\n')(s[j])) by {
        assert(s[j] == a[j]);
    }
    assert(s[a.len() as int] == '\n');
    lemma_first_where_is(s, char_pred('\n'), a.len() as int);
    assert(s.take(a.len() as int) =~= a);
    assert(s.skip(a.len() as int + 1) =~= b);
    assert(spec_split(s, '\n') == seq![a] + spec_split(b, '\n'));
}

/// A text without newlines is a single line.
pub proof fn lemma_split_single(a: Seq<char>)
    requires
        lacks(a, '\n'),
    ensures
        spec_split(a, '\n') == seq![a],
{
    assert forall|j: int| 0 <= j < a.len() implies !(char_pred('\n')(a[j])) by {}
    lemma_first_where_is(a, char_pred('\n'), a.len() as int);
}

/// Trimming does not change a text whose two ends are not whitespace.
pub proof fn lemma_trim_id(s: Seq<char>)
    requires
        s.len() > 0,
        !is_ws_char(s[0]),
        !is_ws_char(s[s.len() - 1]),
    ensures
        spec_trim(s) == s,
{
    assert(s.last() == s[s.len() - 1]);
}

/// A tagged line as the line splitter hands it to the keyword dispatch: the
/// serialized form without its trailing newline.
pub open spec fn spec_line_body(kw: Seq<char>, p: Seq<char>) -> Seq<char> {
    "\t"@ + kw + "\t\""@ + p + "\""@
}

/// The same line after trimming: the leading tab is gone.
pub open spec fn spec_trimmed_line(kw: Seq<char>, p: Seq<char>) -> Seq<char> {
    kw + "\t\""@ + p + "\""@
}

/// A serialized tagged line is its body followed by a newline.
pub proof fn lemma_tagged_line_split(kw: Seq<char>, p: Seq<char>)
    ensures
        spec_tagged_line(kw, p) == spec_line_body(kw, p) + seq!['\n'],
{
    reveal_strlit("\t");
    reveal_strlit("\t\"");
    reveal_strlit("\"");
    reveal_strlit("\"\n");
    assert(spec_tagged_line(kw, p) =~= spec_line_body(kw, p) + seq!['\n']);
}

/// A line body holds no newline when its keyword and payload hold none.
pub proof fn lemma_line_body_lacks(kw: Seq<char>, p: Seq<char>, c: char)
    requires
        lacks(kw, c),
        lacks(p, c),
        c != '\t',
        c != '"',
    ensures
        lacks(spec_line_body(kw, p), c),
{
    reveal_strlit("\t");
    reveal_strlit("\t\"");
    reveal_strlit("\"");
    assert(lacks("\t"@, c));
    assert(lacks("\t\""@, c));
    assert(lacks("\""@, c));
    lemma_lacks_concat("\t"@, kw, c);
    lemma_lacks_concat("\t"@ + kw, "\t\""@, c);
    lemma_lacks_concat("\t"@ + kw + "\t\""@, p, c);
    lemma_lacks_concat("\t"@ + kw + "\t\""@ + p, "\""@, c);
}

/// Trimming a tagged line body removes exactly the leading tab.
pub proof fn lemma_trim_line_body(kw: Seq<char>, p: Seq<char>)
    requires
        kw.len() > 0,
        !is_ws_char(kw[0]),
    ensures
        spec_trim(spec_line_body(kw, p)) == spec_trimmed_line(kw, p),
{
    reveal_strlit("\t");
    reveal_strlit("\t\"");
    reveal_strlit("\"");
    let raw = spec_line_body(kw, p);
    let t = spec_trimmed_line(kw, p);
    assert(raw[0] == '\t');
    assert(is_ws_char(raw[0]));
    assert(raw.drop_first() =~= t);
    assert(drop_leading(raw, ws_pred()) == drop_leading(t, ws_pred()));
    assert(t[0] == kw[0]);
    assert(drop_leading(t, ws_pred()) == t);
    assert(t.last() == '"');
    assert(!is_ws_char('"'));
    assert(drop_trailing(t, ws_pred()) == t);
}

/// Extracting a payload from a trimmed tagged line returns exactly the
/// serialized text, provided the text survives a round trip.
pub proof fn lemma_extract_trimmed(kw: Seq<char>, p: Seq<char>)
    requires
        kw.len() > 0,
        lacks(kw, '\t'),
        text_ok(p),
    ensures
        spec_extract(spec_trimmed_line(kw, p), kw) == Some(p),
{
    reveal_strlit("\t\"");
    reveal_strlit("\"");
    let t = spec_trimmed_line(kw, p);
    let kl = kw.len() as int;
    assert forall|j: int| 0 <= j < kl implies !(char_pred('\t')(t[j])) by {
        assert(t[j] == kw[j]);
    }
    assert(t[kl] == '\t');
    lemma_first_where_is(t, char_pred('\t'), kl);
    let rest = t.skip(kl + 1);
    assert(t.take(kl) =~= kw);
    assert(rest =~= "\""@ + p + "\""@);
    assert forall|j: int| 0 <= j < rest.len() implies !(char_pred('\t')(rest[j])) by {
        if j == 0 {
            assert(rest[j] == '"');
        } else if j <= p.len() {
            assert(rest[j] == p[j - 1]);
        } else {
            assert(rest[j] == '"');
        }
    }
    lemma_first_where_is(rest, char_pred('\t'), rest.len() as int);
    let fields = spec_split(t, '\t');
    assert(fields == seq![t.take(kl)] + spec_split(rest, '\t'));
    assert(spec_split(rest, '\t') == seq![rest]);
    assert(fields.len() == 2);
    assert(fields[0] == kw);
    assert(fields[1] == rest);
    assert(kw.subrange(0, kl) =~= kw);
    assert(kw.is_prefix_of(fields[0]));
    assert(rest[0] == '"');
    assert(is_mark_char(rest[0]));
    let mid = p + "\""@;
    assert(rest.drop_first() =~= mid);
    assert(drop_leading(rest, mark_pred()) == drop_leading(mid, mark_pred()));
    assert(mid[0] == p[0]);
    assert(drop_leading(mid, mark_pred()) == mid);
    assert(mid.last() == '"');
    assert(is_mark_char(mid.last()));
    assert(mid.drop_last() =~= p);
    assert(drop_trailing(mid, mark_pred()) == drop_trailing(p, mark_pred()));
    assert(p.last() == p[p.len() - 1]);
    assert(drop_trailing(p, mark_pred()) == p);
    assert(spec_strip_marks(rest) == p);
}

/// A trimmed label line triggers exactly the label keyword.
pub proof fn lemma_keyword_label(p: Seq<char>)
    ensures
        spec_keyword_action(spec_trimmed_line("TXT"@, p)) == Some(KeywordActions::Label),
{
    reveal_strlit("section");
    reveal_strlit("TXT");
    reveal_strlit("\t\"");
    let t = spec_trimmed_line("TXT"@, p);
    assert(t[0] == 'T');
    if "section"@.is_prefix_of(t) {
        assert(t.subrange(0, 7)[0] == t[0]);
        assert(false);
    }
    assert(t.subrange(0, 3) =~= "TXT"@);
    assert("TXT"@.is_prefix_of(t));
}

/// A trimmed translation line triggers exactly its language keyword.
pub proof fn lemma_keyword_translation(l: Language, p: Seq<char>)
    ensures
        spec_keyword_action(spec_trimmed_line(spec_language_keyword(l), p)) == Some(
            KeywordActions::Translation(l),
        ),
{
    reveal_strlit("section");
    reveal_strlit("TXT");
    reveal_strlit("PL");
    reveal_strlit("EN");
    reveal_strlit("\t\"");
    let kw = spec_language_keyword(l);
    let t = spec_trimmed_line(kw, p);
    assert(t[0] == kw[0]);
    match l {
        Language::PL => {
            assert(t[0] == 'P');
        },
        Language::EN => {
            assert(t[0] == 'E');
        },
    }
    if "section"@.is_prefix_of(t) {
        assert(t.subrange(0, 7)[0] == t[0]);
        assert(false);
    }
    if "TXT"@.is_prefix_of(t) {
        assert(t.subrange(0, 3)[0] == t[0]);
        assert(false);
    }
    match l {
        Language::PL => {
            assert(t.subrange(0, 2) =~= "PL"@);
            assert("PL"@.is_prefix_of(t));
        },
        Language::EN => {
            if "PL"@.is_prefix_of(t) {
                assert(t.subrange(0, 2)[0] == t[0]);
                assert(false);
            }
            assert(t.subrange(0, 2) =~= "EN"@);
            assert("EN"@.is_prefix_of(t));
        },
    }
}

/// A `section` line opens a new empty section, whatever the document holds.
pub proof fn lemma_step_section(doc: Seq<SectionView>)
    ensures
        spec_step(doc, "section"@) == Ok::<Seq<SectionView>, ParseErrorView>(
            doc.push(SectionView::empty()),
        ),
{
    reveal_strlit("section");
    lemma_trim_id("section"@);
    assert(!spec_omit_line("section"@));
    assert("section"@.subrange(0, 7) =~= "section"@);
    assert("section"@.is_prefix_of("section"@));
}

/// An `end` line matches no keyword and leaves the document unchanged.
pub proof fn lemma_step_end(doc: Seq<SectionView>)
    ensures
        spec_step(doc, "end"@) == Ok::<Seq<SectionView>, ParseErrorView>(doc),
{
    reveal_strlit("end");
    reveal_strlit("section");
    reveal_strlit("TXT");
    reveal_strlit("PL");
    reveal_strlit("EN");
    let t = "end"@;
    lemma_trim_id(t);
    assert(!spec_omit_line(t));
    assert(!"section"@.is_prefix_of(t));
    if "TXT"@.is_prefix_of(t) {
        assert(t.subrange(0, 3)[0] == t[0]);
        assert(false);
    }
    if "PL"@.is_prefix_of(t) {
        assert(t.subrange(0, 2)[0] == t[0]);
        assert(false);
    }
    if "EN"@.is_prefix_of(t) {
        assert(t.subrange(0, 2)[0] == t[0]);
        assert(false);
    }
}

/// A serialized label line sets the open section's label.
pub proof fn lemma_step_label_line(doc: Seq<SectionView>, p: Seq<char>)
    requires
        text_ok(p),
        doc.len() > 0,
    ensures
        spec_step(doc, spec_line_body("TXT"@, p)) == Ok::<Seq<SectionView>, ParseErrorView>(
            doc.update(
                doc.len() - 1,
                (SectionView { label: p, translations: doc.last().translations }),
            ),
        ),
{
    reveal_strlit("TXT");
    assert(lacks("TXT"@, '\t'));
    assert(!is_ws_char("TXT"@[0]));
    lemma_trim_line_body("TXT"@, p);
    let t = spec_trimmed_line("TXT"@, p);
    assert(t[0] == 'T');
    assert(!spec_omit_line(t));
    lemma_keyword_label(p);
    lemma_extract_trimmed("TXT"@, p);
}

/// Duplicate-detection law: a serialized translation line for language `l`
/// fails with `LanguageDuplicate`, naming that language and the open
/// section's label, exactly when the open section already holds `l`;
/// otherwise it inserts the text under `l`.
pub proof fn lemma_duplicate_language_detected(doc: Seq<SectionView>, l: Language, p: Seq<char>)
    requires
        text_ok(p),
        doc.len() > 0,
    ensures
        spec_step(doc, spec_line_body(spec_language_keyword(l), p)) == (
        if doc.last().translations.contains(l) {
            Err::<Seq<SectionView>, ParseErrorView>(
                ParseErrorView::LanguageDuplicate(l, doc.last().label),
            )
        } else {
            Ok::<Seq<SectionView>, ParseErrorView>(
                doc.update(
                    doc.len() - 1,
                    (SectionView {
                        label: doc.last().label,
                        translations: doc.last().translations.insert(l, p),
                    }),
                ),
            )
        }),
{
    reveal_strlit("PL");
    reveal_strlit("EN");
    let kw = spec_language_keyword(l);
    match l {
        Language::PL => {
            assert(lacks(kw, '\t'));
            assert(!is_ws_char(kw[0]));
        },
        Language::EN => {
            assert(lacks(kw, '\t'));
            assert(!is_ws_char(kw[0]));
        },
    }
    lemma_trim_line_body(kw, p);
    let t = spec_trimmed_line(kw, p);
    assert(t[0] == kw[0]);
    match l {
        Language::PL => {
            assert(!spec_omit_line(t));
        },
        Language::EN => {
            assert(!spec_omit_line(t));
        },
    }
    lemma_keyword_translation(l, p);
    lemma_extract_trimmed(kw, p);
}

/// Round-trip law: the serialized form of a serializable section parses back
/// to exactly that one section.
pub proof fn lemma_generate_parse_round_trip(s: SectionView)
    requires
        spec_serializable(s),
    ensures
        spec_parse(spec_generate(s)) == Ok::<Seq<SectionView>, ParseErrorView>(seq![s]),
{
    reveal_strlit("section\n");
    reveal_strlit("section");
    reveal_strlit("end");
    reveal_strlit("TXT");
    reveal_strlit("PL");
    reveal_strlit("EN");
    let g = spec_generate(s);
    let nl = seq!['\n'];
    let pl = s.translations.pl;
    let en = s.translations.en;
    let lbl = spec_line_body("TXT"@, s.label);
    let r_end = "end"@;
    let r_en = if en is Some {
        spec_line_body("EN"@, en->0) + nl + r_end
    } else {
        r_end
    };
    let r_pl = if pl is Some {
        spec_line_body("PL"@, pl->0) + nl + r_en
    } else {
        r_en
    };
    let r_lbl = lbl + nl + r_pl;
    // The serialized text decomposes into newline-terminated line bodies.
    lemma_tagged_line_split("TXT"@, s.label);
    if pl is Some {
        lemma_tagged_line_split("PL"@, pl->0);
    }
    if en is Some {
        lemma_tagged_line_split("EN"@, en->0);
    }
    assert(g =~= "section"@ + nl + r_lbl);
    // No line body holds a newline, so the splitter recovers the lines.
    assert(lacks("section"@, '\n'));
    assert(lacks("end"@, '\n'));
    assert(lacks("TXT"@, '\n'));
    assert(lacks("PL"@, '\n'));
    assert(lacks("EN"@, '\n'));
    lemma_line_body_lacks("TXT"@, s.label, '\n');
    lemma_split_single(r_end);
    let split_en = spec_split(r_en, '\n');
    if en is Some {
        lemma_line_body_lacks("EN"@, en->0, '\n');
        lemma_split_concat_line(spec_line_body("EN"@, en->0), r_end);
        assert(split_en == seq![spec_line_body("EN"@, en->0)] + seq![r_end]);
    } else {
        assert(split_en == seq![r_end]);
    }
    let split_pl = spec_split(r_pl, '\n');
    if pl is Some {
        lemma_line_body_lacks("PL"@, pl->0, '\n');
        lemma_split_concat_line(spec_line_body("PL"@, pl->0), r_en);
        assert(split_pl == seq![spec_line_body("PL"@, pl->0)] + split_en);
    } else {
        assert(split_pl == split_en);
    }
    lemma_split_concat_line(lbl, r_pl);
    let split_lbl = spec_split(r_lbl, '\n');
    assert(split_lbl == seq![lbl] + split_pl);
    lemma_split_concat_line("section"@, r_lbl);
    let split_g = spec_split(g, '\n');
    assert(g == "section"@ + nl + r_lbl);
    assert(split_g == seq!["section"@] + split_lbl);
    // Fold the parser over the lines.
    let d0 = Seq::<SectionView>::empty();
    lemma_step_section(d0);
    let d1 = d0.push(SectionView::empty());
    assert(split_g[0] == "section"@);
    assert(split_g.drop_first() =~= split_lbl);
    assert(spec_parse(g) == spec_parse_lines(split_g, d0));
    assert(spec_parse_lines(split_g, d0) == spec_parse_lines(split_lbl, d1));
    assert(d1.len() == 1);
    lemma_step_label_line(d1, s.label);
    let d2 = d1.update(0, SectionView { label: s.label, translations: d1.last().translations });
    assert(split_lbl[0] == lbl);
    assert(split_lbl.drop_first() =~= split_pl);
    assert(spec_parse_lines(split_lbl, d1) == spec_parse_lines(split_pl, d2));
    assert(d2.len() == 1);
    assert(d2.last().translations == TranslationsView::empty());
    let d3 = if pl is Some {
        d2.update(
            0,
            SectionView {
                label: d2.last().label,
                translations: d2.last().translations.insert(Language::PL, pl->0),
            },
        )
    } else {
        d2
    };
    if pl is Some {
        lemma_duplicate_language_detected(d2, Language::PL, pl->0);
        assert(!d2.last().translations.contains(Language::PL));
        assert(split_pl[0] == spec_line_body(spec_language_keyword(Language::PL), pl->0));
        assert(split_pl.drop_first() =~= split_en);
        assert(spec_parse_lines(split_pl, d2) == spec_parse_lines(split_en, d3));
    } else {
        assert(spec_parse_lines(split_pl, d2) == spec_parse_lines(split_en, d3));
    }
    assert(d3.len() == 1);
    assert(d3.last().label == s.label);
    assert(d3.last().translations == (TranslationsView { pl, en: None }));
    let d4 = if en is Some {
        d3.update(
            0,
            SectionView {
                label: d3.last().label,
                translations: d3.last().translations.insert(Language::EN, en->0),
            },
        )
    } else {
        d3
    };
    if en is Some {
        lemma_duplicate_language_detected(d3, Language::EN, en->0);
        assert(!d3.last().translations.contains(Language::EN));
        assert(split_en[0] == spec_line_body(spec_language_keyword(Language::EN), en->0));
        assert(split_en.drop_first() =~= seq![r_end]);
        assert(spec_parse_lines(split_en, d3) == spec_parse_lines(seq![r_end], d4));
    } else {
        assert(spec_parse_lines(split_en, d3) == spec_parse_lines(seq![r_end], d4));
    }
    assert(d4.len() == 1);
    assert(d4.last().label == s.label);
    assert(d4.last().translations == (TranslationsView { pl, en }));
    lemma_step_end(d4);
    assert(seq![r_end][0] == "end"@);
    assert(seq![r_end].drop_first() =~= Seq::<Seq<char>>::empty());
    assert(spec_parse_lines(seq![r_end], d4) == spec_parse_lines(Seq::<Seq<char>>::empty(), d4));
    assert(spec_parse_lines(Seq::<Seq<char>>::empty(), d4) == Ok::<
        Seq<SectionView>,
        ParseErrorView,
    >(d4));
    assert(d4[0] =~~= s);
    assert(d4 =~= seq![s]);
}

} // verus!
