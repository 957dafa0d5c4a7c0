//! The section model: a localization unit pairing a label with at most one
//! text per language, its mathematical view, the serializer and the
//! per-section validation checks.

use vstd::prelude::*;
use vstd::string::*;

use crate::text::{count_matches, count_matches_str, str_eq};

verus! {

/// The closed set of supported languages, in serialization order.
#[derive(Clone, Copy, Debug, PartialEq, Eq, PartialOrd, Ord, Structural)]
pub enum Language {
    PL,
    EN,
}

/// The tag under which a language appears in the tagged text format.
pub open spec fn spec_language_keyword(l: Language) -> Seq<char> {
    match l {
        Language::PL => "PL"@,
        Language::EN => "EN"@,
    }
}

/// The language a tag names, if any.
pub open spec fn spec_language_from_tag(s: Seq<char>) -> Option<Language> {
    if s == "PL"@ {
        Some(Language::PL)
    } else if s == "EN"@ {
        Some(Language::EN)
    } else {
        None
    }
}

impl Language {
    /// How many languages the model knows.
    pub fn variants_count() -> (r: usize)
        ensures
            r == 2,
    {
        2
    }

    /// The tag under which this language appears in the tagged text format.
    pub fn keyword(self) -> (r: &'static str)
        ensures
            r@ == spec_language_keyword(self),
    {
        match self {
            Language::PL => "PL",
            Language::EN => "EN",
        }
    }

    /// Parses a language tag; an unknown tag yields `None`.
    pub fn from_tag(s: &str) -> (r: Option<Language>)
        ensures
            r == spec_language_from_tag(s@),
    {
        if str_eq(s, "PL") {
            Some(Language::PL)
        } else if str_eq(s, "EN") {
            Some(Language::EN)
        } else {
            None
        }
    }
}

/// Mathematical view of a translation map: at most one text per language.
#[verifier::ext_equal]
pub struct TranslationsView {
    pub pl: Option<Seq<char>>,
    pub en: Option<Seq<char>>,
}

impl TranslationsView {
    pub open spec fn empty() -> TranslationsView {
        TranslationsView { pl: None, en: None }
    }

    pub open spec fn get(self, l: Language) -> Option<Seq<char>> {
        match l {
            Language::PL => self.pl,
            Language::EN => self.en,
        }
    }

    pub open spec fn insert(self, l: Language, t: Seq<char>) -> TranslationsView {
        match l {
            Language::PL => TranslationsView { pl: Some(t), en: self.en },
            Language::EN => TranslationsView { pl: self.pl, en: Some(t) },
        }
    }

    pub open spec fn contains(self, l: Language) -> bool {
        self.get(l) is Some
    }

    pub open spec fn count(self) -> nat {
        (if self.pl is Some {
            1nat
        } else {
            0nat
        }) + (if self.en is Some {
            1nat
        } else {
            0nat
        })
    }
}

/// Mathematical view of a section.
#[verifier::ext_equal]
pub struct SectionView {
    pub label: Seq<char>,
    pub translations: TranslationsView,
}

impl SectionView {
    pub open spec fn empty() -> SectionView {
        SectionView { label: Seq::empty(), translations: TranslationsView::empty() }
    }

    /// A section is complete when it holds one text per known language.
    pub open spec fn is_complete(self) -> bool {
        self.translations.count() == 2
    }
}

/// Translation texts keyed by language; by construction no language appears
/// twice.  Texts are kept and serialized in `Language` order.
#[derive(Debug, PartialEq)]
pub struct TranslationMap {
    pub pl: Option<String>,
    pub en: Option<String>,
}

impl View for TranslationMap {
    type V = TranslationsView;

    open spec fn view(&self) -> TranslationsView {
        TranslationsView {
            pl: match self.pl {
                Some(s) => Some(s@),
                None => None,
            },
            en: match self.en {
                Some(s) => Some(s@),
                None => None,
            },
        }
    }
}

impl TranslationMap {
    pub fn new() -> (r: TranslationMap)
        ensures
            r@ == TranslationsView::empty(),
    {
        TranslationMap { pl: None, en: None }
    }

    pub fn contains_key(&self, l: Language) -> (r: bool)
        ensures
            r == self@.contains(l),
    {
        match l {
            Language::PL => self.pl.is_some(),
            Language::EN => self.en.is_some(),
        }
    }

    /// Sets the text for `l`, returning the text it replaces, if any.
    pub fn insert(&mut self, l: Language, t: String) -> (prev: Option<String>)
        ensures
            final(self)@ == old(self)@.insert(l, t@),
            prev is Some <==> old(self)@.contains(l),
            prev matches Some(p) ==> old(self)@.get(l) == Some(p@),
    {
        match l {
            Language::PL => {
                let prev = match &self.pl {
                    Some(p) => Some(p.clone()),
                    None => None,
                };
                self.pl = Some(t);
                prev
            },
            Language::EN => {
                let prev = match &self.en {
                    Some(p) => Some(p.clone()),
                    None => None,
                };
                self.en = Some(t);
                prev
            },
        }
    }

    pub fn get(&self, l: Language) -> (r: Option<&String>)
        ensures
            match r {
                Some(t) => self@.get(l) == Some(t@),
                None => self@.get(l) is None,
            },
    {
        match l {
            Language::PL => self.pl.as_ref(),
            Language::EN => self.en.as_ref(),
        }
    }

    /// How many languages have a text.
    pub fn len(&self) -> (r: usize)
        ensures
            r == self@.count(),
    {
        let a: usize = if self.pl.is_some() {
            1
        } else {
            0
        };
        let b: usize = if self.en.is_some() {
            1
        } else {
            0
        };
        a + b
    }
}

/// A localization unit: a label and one text per translated language.
#[derive(Debug, PartialEq)]
pub struct Section {
    pub label: String,
    pub translations: TranslationMap,
}

impl View for Section {
    type V = SectionView;

    open spec fn view(&self) -> SectionView {
        SectionView { label: self.label@, translations: self.translations@ }
    }
}

impl DeepView for Section {
    type V = SectionView;

    open spec fn deep_view(&self) -> SectionView {
        self.view()
    }
}

/// One tab-indented `<keyword>\t"<payload>"` line of the tagged format.
pub open spec fn spec_tagged_line(keyword: Seq<char>, payload: Seq<char>) -> Seq<char> {
    "\t"@ + keyword + "\t\""@ + payload + "\"\n"@
}

/// The translation lines of a section, in `Language` order.
pub open spec fn spec_translation_lines(t: TranslationsView) -> Seq<char> {
    (match t.pl {
        Some(x) => spec_tagged_line(spec_language_keyword(Language::PL), x),
        None => Seq::<char>::empty(),
    }) + (match t.en {
        Some(x) => spec_tagged_line(spec_language_keyword(Language::EN), x),
        None => Seq::<char>::empty(),
    })
}

/// The serialized form of a section: `section`, the label line, one line per
/// translation in `Language` order, and `end`.
pub open spec fn spec_generate(s: SectionView) -> Seq<char> {
    "section\n"@ + spec_tagged_line("TXT"@, s.label) + spec_translation_lines(s.translations)
        + "end"@
}

/// Argument-count parity between two texts for the fixed placeholder set.
pub open spec fn spec_texts_args_consistent(a: Seq<char>, b: Seq<char>) -> bool {
    &&& count_matches(a, "%d"@) == count_matches(b, "%d"@)
    &&& count_matches(a, "%s"@) == count_matches(b, "%s"@)
    &&& count_matches(a, "%ld"@) == count_matches(b, "%ld"@)
    &&& count_matches(a, "%%"@) == count_matches(b, "%%"@)
}

/// A section passes the argument check when every placeholder occurs equally
/// often in all of its texts; with fewer than two texts there is nothing to
/// compare.
pub open spec fn spec_section_args_consistent(t: TranslationsView) -> bool {
    match (t.pl, t.en) {
        (Some(a), Some(b)) => spec_texts_args_consistent(a, b),
        _ => true,
    }
}

/// A section shows diversity unless it holds two byte-identical texts — the
/// heuristic that a text was never actually translated.
pub open spec fn spec_section_diverse(t: TranslationsView) -> bool {
    match (t.pl, t.en) {
        (Some(a), Some(b)) => a != b,
        _ => true,
    }
}

/// Argument-count parity between two raw strings for the fixed placeholder
/// set (`%d`, `%s`, `%ld`, `%%`).
pub fn check_string_arguments(left: &str, right: &str) -> (r: bool)
    ensures
        r == spec_texts_args_consistent(left@, right@),
{
    proof {
        reveal_strlit("%d");
        reveal_strlit("%s");
        reveal_strlit("%ld");
        reveal_strlit("%%");
    }
    let d_ok = count_matches_str(left, "%d") == count_matches_str(right, "%d");
    let s_ok = count_matches_str(left, "%s") == count_matches_str(right, "%s");
    let ld_ok = count_matches_str(left, "%ld") == count_matches_str(right, "%ld");
    let pct_ok = count_matches_str(left, "%%") == count_matches_str(right, "%%");
    d_ok && s_ok && ld_ok && pct_ok
}

impl Section {
    /// An empty section: no label, no translations.
    pub fn new() -> (r: Section)
        ensures
            r@ == SectionView::empty(),
    {
        Section { label: String::new(), translations: TranslationMap::new() }
    }

    /// Whether this section holds one text per known language.
    pub fn is_complete(&self) -> (r: bool)
        ensures
            r == self@.is_complete(),
    {
        self.translations.len() == Language::variants_count()
    }

    /// Serializes this section, as `spec_generate` describes.
    pub fn generate(&self) -> (r: String)
        ensures
            r@ == spec_generate(self@),
    {
        let mut out = String::new();
        out.append("section\n");
        out.append("\t");
        out.append("TXT");
        out.append("\t\"");
        out.append(self.label.as_str());
        out.append("\"\n");
        match &self.translations.pl {
            Some(t) => {
                out.append("\t");
                out.append("PL");
                out.append("\t\"");
                out.append(t.as_str());
                out.append("\"\n");
            },
            None => {},
        }
        match &self.translations.en {
            Some(t) => {
                out.append("\t");
                out.append("EN");
                out.append("\t\"");
                out.append(t.as_str());
                out.append("\"\n");
            },
            None => {},
        }
        out.append("end");
        proof {
            assert(out@ =~= spec_generate(self@));
        }
        out
    }

    /// Whether every placeholder occurs equally often in all of this
    /// section's texts.
    pub fn check_translations_arguments(&self) -> (r: bool)
        ensures
            r == spec_section_args_consistent(self@.translations),
    {
        match (&self.translations.pl, &self.translations.en) {
            (Some(a), Some(b)) => check_string_arguments(a.as_str(), b.as_str()),
            _ => true,
        }
    }

    /// Whether this section's texts differ; two byte-identical texts suggest
    /// the entry was never actually translated.
    pub fn check_translations_diversity(&self) -> (r: bool)
        ensures
            r == spec_section_diverse(self@.translations),
    {
        match (&self.translations.pl, &self.translations.en) {
            (Some(a), Some(b)) => !str_eq(a.as_str(), b.as_str()),
            _ => true,
        }
    }
}

/// Completeness law: a section holding exactly one of the two languages is
/// incomplete; one holding both is complete.
pub proof fn lemma_completeness(s: SectionView)
    ensures
        (s.translations.pl is Some) != (s.translations.en is Some) ==> !s.is_complete(),
        (s.translations.pl is Some) && (s.translations.en is Some) ==> s.is_complete(),
{
}

} // verus!
