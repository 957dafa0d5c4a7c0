//! The tagged-format parser, the merge engine and the clientside key-value
//! parser, each verified against a mathematical model of the line-oriented
//! scan.

use vstd::prelude::*;
use vstd::string::*;

use crate::section::{spec_language_keyword, Language, Section, SectionView, TranslationsView};
use crate::text::{
    char_pred, find_char_from, first_where, lemma_first_where_bounds, lemma_first_where_is,
    spec_split, spec_strip_marks, spec_trim, str_eq, str_starts_with, strip_marks, trim_str,
};

verus! {

/// What a recognized keyword does to the document being built.
#[derive(Debug, PartialEq, Eq, Structural)]
pub enum KeywordActions {
    NewSection,
    Label,
    Translation(Language),
}

/// Errors raised by parsing and by the validation passes.
#[derive(Debug)]
pub enum ParseError {
    /// A payload was found but no section is open; carries keyword and payload.
    Syntax(String, String),
    /// A keyword line whose payload could not be extracted; carries the line.
    Empty(String),
    /// A language tag repeated inside one section; carries language and label.
    LanguageDuplicate(Language, String),
    /// A key repeated in a flat map; carries the label.
    LabelDuplicate(String),
    /// Placeholder counts differ across languages; carries the label.
    ArgumentMismatch(String),
}

/// Mathematical view of a parse or validation error.
#[verifier::ext_equal]
pub enum ParseErrorView {
    Syntax(Seq<char>, Seq<char>),
    Empty(Seq<char>),
    LanguageDuplicate(Language, Seq<char>),
    LabelDuplicate(Seq<char>),
    ArgumentMismatch(Seq<char>),
}

impl View for ParseError {
    type V = ParseErrorView;

    open spec fn view(&self) -> ParseErrorView {
        match self {
            ParseError::Syntax(k, p) => ParseErrorView::Syntax(k@, p@),
            ParseError::Empty(l) => ParseErrorView::Empty(l@),
            ParseError::LanguageDuplicate(l, lab) => ParseErrorView::LanguageDuplicate(*l, lab@),
            ParseError::LabelDuplicate(lab) => ParseErrorView::LabelDuplicate(lab@),
            ParseError::ArgumentMismatch(lab) => ParseErrorView::ArgumentMismatch(lab@),
        }
    }
}

/// Whether a trimmed line is skipped: blank lines and `#`-prefixed comments.
pub open spec fn spec_omit_line(s: Seq<char>) -> bool {
    s.len() == 0 || s[0] == '#'
}

/// Whether this trimmed line is skipped by the parsers: blank lines and
/// `#`-prefixed comment lines.
pub fn omit_line(line: &str) -> (r: bool)
    ensures
        r == spec_omit_line(line@),
{
    line.unicode_len() == 0 || line.get_char(0) == '#'
}

/// The keyword a trimmed line triggers, if any: the line's first
/// tab-separated field must start with the keyword.
pub open spec fn spec_keyword_action(line: Seq<char>) -> Option<KeywordActions> {
    if "section"@.is_prefix_of(line) {
        Some(KeywordActions::NewSection)
    } else if "TXT"@.is_prefix_of(line) {
        Some(KeywordActions::Label)
    } else if "PL"@.is_prefix_of(line) {
        Some(KeywordActions::Translation(Language::PL))
    } else if "EN"@.is_prefix_of(line) {
        Some(KeywordActions::Translation(Language::EN))
    } else {
        None
    }
}

/// Dispatches a trimmed line to the keyword it triggers, if any.
pub fn keyword_action(line: &str) -> (r: Option<KeywordActions>)
    ensures
        r == spec_keyword_action(line@),
{
    if str_starts_with(line, "section") {
        Some(KeywordActions::NewSection)
    } else if str_starts_with(line, "TXT") {
        Some(KeywordActions::Label)
    } else if str_starts_with(line, "PL") {
        Some(KeywordActions::Translation(Language::PL))
    } else if str_starts_with(line, "EN") {
        Some(KeywordActions::Translation(Language::EN))
    } else {
        None
    }
}

/// The payload of a keyword line: the second tab-separated field, with
/// bounding quote and backslash characters stripped, provided the first
/// field starts with the keyword.
pub open spec fn spec_extract(text: Seq<char>, key: Seq<char>) -> Option<Seq<char>> {
    let fields = spec_split(text, '\t');
    if key.is_prefix_of(fields[0]) {
        if fields.len() >= 2 {
            Some(spec_strip_marks(fields[1]))
        } else {
            None
        }
    } else {
        None
    }
}

/// Extracts a keyword line's payload, as `spec_extract` describes.
pub fn extract_text<'a>(text: &'a str, key: &str) -> (r: Option<&'a str>)
    ensures
        match r {
            Some(v) => spec_extract(text@, key@) == Some(v@),
            None => spec_extract(text@, key@) is None,
        },
{
    let n = text.unicode_len();
    let k1 = find_char_from(text, 0, '\t');
    let field0 = text.substring_char(0, k1);
    proof {
        lemma_first_where_is(text@, char_pred('\t'), k1 as int);
        let fields = spec_split(text@, '\t');
        if k1 == n {
            assert(fields == seq![text@]);
            assert(field0@ =~= text@);
            assert(fields[0] == field0@);
            assert(fields.len() == 1);
        } else {
            assert(fields == seq![text@.take(k1 as int)] + spec_split(
                text@.skip(k1 + 1),
                '\t',
            ));
            assert(fields[0] =~= field0@);
            assert(fields.len() >= 2);
        }
    }
    if !str_starts_with(field0, key) {
        return None;
    }
    if k1 == n {
        return None;
    }
    let k2 = find_char_from(text, k1 + 1, '\t');
    let field1 = text.substring_char(k1 + 1, k2);
    proof {
        let rest = text@.skip(k1 + 1);
        assert forall|j: int| 0 <= j < k2 - k1 - 1 implies !(char_pred('\t')(rest[j])) by {
            assert(rest[j] == text@[k1 + 1 + j]);
        }
        if k2 - k1 - 1 < rest.len() {
            assert(rest[k2 - k1 - 1] == text@[k2 as int]);
        }
        lemma_first_where_is(rest, char_pred('\t'), k2 - k1 - 1);
        let rfields = spec_split(rest, '\t');
        if k2 - k1 - 1 == rest.len() {
            assert(rfields[0] == rest);
            assert(rest =~= rest.take(k2 - k1 - 1));
        } else {
            assert(rfields[0] == rest.take(k2 - k1 - 1));
        }
        assert(field1@ =~= rest.take(k2 - k1 - 1));
        let fields = spec_split(text@, '\t');
        assert(fields[1] == rfields[0]);
    }
    Some(strip_marks(field1))
}

/// Effect of a label line on the document: the extracted payload becomes the
/// label of the most recently opened section.  An unextractable or empty
/// payload is an `Empty` error; a payload with no open section is a `Syntax`
/// error.
pub open spec fn spec_step_label(doc: Seq<SectionView>, line: Seq<char>) -> Result<
    Seq<SectionView>,
    ParseErrorView,
> {
    match spec_extract(line, "TXT"@) {
        None => Err(ParseErrorView::Empty(line)),
        Some(e) => if e.len() == 0 {
            Err(ParseErrorView::Empty(line))
        } else if doc.len() == 0 {
            Err(ParseErrorView::Syntax("TXT"@, e))
        } else {
            Ok(
                doc.update(
                    doc.len() - 1,
                    SectionView { label: e, translations: doc.last().translations },
                ),
            )
        },
    }
}

/// Effect of a translation line on the document: the extracted payload is
/// inserted under `l` into the most recently opened section.  A repeated
/// language is a `LanguageDuplicate` error naming the language and the label.
pub open spec fn spec_step_translation(
    doc: Seq<SectionView>,
    line: Seq<char>,
    l: Language,
) -> Result<Seq<SectionView>, ParseErrorView> {
    match spec_extract(line, spec_language_keyword(l)) {
        None => Err(ParseErrorView::Empty(line)),
        Some(e) => if e.len() == 0 {
            Err(ParseErrorView::Empty(line))
        } else if doc.len() == 0 {
            Err(ParseErrorView::Syntax(spec_language_keyword(l), e))
        } else if doc.last().translations.contains(l) {
            Err(ParseErrorView::LanguageDuplicate(l, doc.last().label))
        } else {
            Ok(
                doc.update(
                    doc.len() - 1,
                    SectionView {
                        label: doc.last().label,
                        translations: doc.last().translations.insert(l, e),
                    },
                ),
            )
        },
    }
}

/// Effect of one raw line on the document being built: the line is trimmed,
/// blank and comment lines are skipped, a `section` line opens a new empty
/// section, label and translation lines update the open section, and lines
/// matching no keyword are ignored.
pub open spec fn spec_step(doc: Seq<SectionView>, raw: Seq<char>) -> Result<
    Seq<SectionView>,
    ParseErrorView,
> {
    let line = spec_trim(raw);
    if spec_omit_line(line) {
        Ok(doc)
    } else {
        match spec_keyword_action(line) {
            Some(KeywordActions::NewSection) => Ok(doc.push(SectionView::empty())),
            Some(KeywordActions::Label) => spec_step_label(doc, line),
            Some(KeywordActions::Translation(l)) => spec_step_translation(doc, line, l),
            None => Ok(doc),
        }
    }
}

/// Folds `spec_step` over a sequence of raw lines, aborting on the first
/// error.
pub open spec fn spec_parse_lines(
    lines: Seq<Seq<char>>,
    doc: Seq<SectionView>,
) -> Result<Seq<SectionView>, ParseErrorView>
    decreases lines.len(),
{
    if lines.len() == 0 {
        Ok(doc)
    } else {
        match spec_step(doc, lines[0]) {
            Ok(d) => spec_parse_lines(lines.drop_first(), d),
            Err(e) => Err(e),
        }
    }
}

/// The parse of a whole text: its lines folded over an empty document.
pub open spec fn spec_parse(text: Seq<char>) -> Result<Seq<SectionView>, ParseErrorView> {
    spec_parse_lines(spec_split(text, '\n'), Seq::empty())
}

/// Applies one raw line to the document, as `spec_step` describes.
fn apply_line(doc: &mut Vec<Section>, raw: &str) -> (r: Result<(), ParseError>)
    ensures
        match r {
            Ok(_) => spec_step(old(doc).deep_view(), raw@) == Ok::<
                Seq<SectionView>,
                ParseErrorView,
            >(final(doc).deep_view()),
            Err(e) => spec_step(old(doc).deep_view(), raw@) == Err::<
                Seq<SectionView>,
                ParseErrorView,
            >(e@),
        },
{
    let line = trim_str(raw);
    if omit_line(line) {
        return Ok(());
    }
    match keyword_action(line) {
        None => Ok(()),
        Some(KeywordActions::NewSection) => {
            doc.push(Section::new());
            proof {
                assert(doc.deep_view() =~= old(doc).deep_view().push(SectionView::empty()));
            }
            Ok(())
        },
        Some(KeywordActions::Label) => {
            let e = match extract_text(line, "TXT") {
                Some(v) => v,
                None => {
                    return Err(ParseError::Empty(line.to_owned()));
                },
            };
            if e.unicode_len() == 0 {
                return Err(ParseError::Empty(line.to_owned()));
            }
            if doc.len() == 0 {
                return Err(ParseError::Syntax("TXT".to_owned(), e.to_owned()));
            }
            let owned = e.to_owned();
            let mut s = doc.pop().unwrap();
            s.label = owned;
            doc.push(s);
            proof {
                let prev = old(doc).deep_view();
                assert(doc.deep_view() =~= prev.update(
                    prev.len() - 1,
                    SectionView { label: e@, translations: prev.last().translations },
                ));
            }
            Ok(())
        },
        Some(KeywordActions::Translation(l)) => {
            let kw = l.keyword();
            let e = match extract_text(line, kw) {
                Some(v) => v,
                None => {
                    return Err(ParseError::Empty(line.to_owned()));
                },
            };
            if e.unicode_len() == 0 {
                return Err(ParseError::Empty(line.to_owned()));
            }
            if doc.len() == 0 {
                return Err(ParseError::Syntax(kw.to_owned(), e.to_owned()));
            }
            let owned = e.to_owned();
            let mut s = doc.pop().unwrap();
            if s.translations.contains_key(l) {
                return Err(ParseError::LanguageDuplicate(l, s.label));
            }
            s.translations.insert(l, owned);
            doc.push(s);
            proof {
                let prev = old(doc).deep_view();
                assert(doc.deep_view() =~= prev.update(
                    prev.len() - 1,
                    SectionView {
                        label: prev.last().label,
                        translations: prev.last().translations.insert(l, e@),
                    },
                ));
            }
            Ok(())
        },
    }
}

/// Parses a tagged-format text into its ordered list of sections, aborting
/// on the first error; no partial document is ever returned.
pub fn parse_data(data: &str) -> (r: Result<Vec<Section>, ParseError>)
    ensures
        match r {
            Ok(v) => spec_parse(data@) == Ok::<Seq<SectionView>, ParseErrorView>(v.deep_view()),
            Err(e) => spec_parse(data@) == Err::<Seq<SectionView>, ParseErrorView>(e@),
        },
{
    let n = data.unicode_len();
    let mut doc: Vec<Section> = Vec::new();
    let mut i: usize = 0;
    proof {
        assert(data@.skip(0) =~= data@);
        assert(doc.deep_view() =~= Seq::<SectionView>::empty());
    }
    while i <= n
        invariant
            n == data@.len(),
            i <= n,
            spec_parse(data@) == spec_parse_lines(
                spec_split(data@.skip(i as int), '\n'),
                doc.deep_view(),
            ),
        decreases n + 1 - i,
    {
        let k = find_char_from(data, i, '\n');
        let line = data.substring_char(i, k);
        let ghost prev = doc.deep_view();
        proof {
            let rest = data@.skip(i as int);
            assert forall|j: int| 0 <= j < k - i implies !(char_pred('\n')(rest[j])) by {
                assert(rest[j] == data@[i + j]);
            }
            if k - i < rest.len() {
                assert(rest[k - i] == data@[k as int]);
            }
            lemma_first_where_is(rest, char_pred('\n'), k - i);
            assert(line@ =~= rest.take(k - i));
        }
        let res = apply_line(&mut doc, line);
        proof {
            let rest = data@.skip(i as int);
            let pieces = spec_split(rest, '\n');
            if k < n {
                assert(pieces == seq![rest.take(k - i)] + spec_split(rest.skip(k - i + 1), '\n'));
                assert(pieces[0] == line@);
                assert(pieces.drop_first() =~= spec_split(rest.skip(k - i + 1), '\n'));
                assert(rest.skip(k - i + 1) =~= data@.skip(k + 1));
            } else {
                assert(k == n);
                assert(rest.take(k - i) =~= rest);
                assert(pieces == seq![rest]);
                assert(pieces[0] == line@);
                assert(pieces.drop_first() =~= Seq::<Seq<char>>::empty());
            }
            assert(spec_parse_lines(pieces, prev) == match spec_step(prev, line@) {
                Ok(d) => spec_parse_lines(pieces.drop_first(), d),
                Err(e) => Err(e),
            });
        }
        match res {
            Ok(_) => {},
            Err(e) => {
                return Err(e);
            },
        }
        if k == n {
            return Ok(doc);
        }
        i = k + 1;
    }
    Ok(doc)
}

/// The section that results from overlaying the incoming section `x` onto
/// `base`: every language `x` carries wins; languages absent from `x` keep
/// the base text; the base label and position stay.
pub open spec fn spec_overlay(base: SectionView, x: SectionView) -> SectionView {
    SectionView {
        label: base.label,
        translations: TranslationsView {
            pl: match x.translations.pl {
                Some(t) => Some(t),
                None => base.translations.pl,
            },
            en: match x.translations.en {
                Some(t) => Some(t),
                None => base.translations.en,
            },
        },
    }
}

pub open spec fn label_pred(label: Seq<char>) -> spec_fn(SectionView) -> bool {
    |s: SectionView| s.label == label
}

/// Merging one incoming section: it overlays the first base section with an
/// equal label, or is appended at the end if no label matches.
pub open spec fn spec_merge_one(base: Seq<SectionView>, x: SectionView) -> Seq<SectionView> {
    let i = first_where(base, label_pred(x.label));
    if i < base.len() {
        base.update(i, spec_overlay(base[i], x))
    } else {
        base.push(x)
    }
}

/// Merging a whole incoming document, one section at a time in incoming
/// order; an appended section can itself receive later incoming updates.
pub open spec fn spec_merge(base: Seq<SectionView>, incoming: Seq<SectionView>) -> Seq<SectionView>
    decreases incoming.len(),
{
    if incoming.len() == 0 {
        base
    } else {
        spec_merge(spec_merge_one(base, incoming[0]), incoming.drop_first())
    }
}

/// Overlays the incoming document onto the base document, as `spec_merge`
/// describes: base sections keep their order and receive incoming texts;
/// unmatched incoming sections are appended in their original order.
pub fn merge_sections(base: Vec<Section>, new: Vec<Section>) -> (r: Vec<Section>)
    ensures
        r.deep_view() == spec_merge(base.deep_view(), new.deep_view()),
{
    let mut base = base;
    let mut new = new;
    let ghost base0 = base.deep_view();
    let ghost new0 = new.deep_view();
    while new.len() > 0
        invariant
            spec_merge(base0, new0) == spec_merge(base.deep_view(), new.deep_view()),
        decreases new.len(),
    {
        let ghost bprev = base.deep_view();
        let ghost nprev = new.deep_view();
        let x = new.remove(0);
        proof {
            assert(new.deep_view() =~= nprev.drop_first());
            assert(x.deep_view() == nprev[0]);
        }
        let mut idx: usize = 0;
        while idx < base.len() && !(base[idx].label == x.label)
            invariant
                idx <= base.deep_view().len(),
                base.deep_view() == bprev,
                forall|j: int| 0 <= j < idx ==> bprev[j].label != x@.label,
            decreases base.deep_view().len() - idx,
        {
            idx = idx + 1;
        }
        proof {
            if idx < bprev.len() {
                assert(bprev[idx as int].label == x@.label);
            }
            lemma_first_where_is(bprev, label_pred(x@.label), idx as int);
        }
        if idx < base.len() {
            let Section { label: _, translations: xtr } = x;
            let mut s = base.remove(idx);
            match xtr.pl {
                Some(t) => {
                    s.translations.insert(Language::PL, t);
                },
                None => {},
            }
            match xtr.en {
                Some(t) => {
                    s.translations.insert(Language::EN, t);
                },
                None => {},
            }
            base.insert(idx, s);
            proof {
                assert(base.deep_view() =~= bprev.update(
                    idx as int,
                    spec_overlay(bprev[idx as int], nprev[0]),
                ));
            }
        } else {
            base.push(x);
            proof {
                assert(base.deep_view() =~= bprev.push(nprev[0]));
            }
        }
        proof {
            assert(base.deep_view() == spec_merge_one(bprev, nprev[0]));
        }
    }
    proof {
        assert(new.deep_view() =~= Seq::<SectionView>::empty());
    }
    base
}

/// One label→text entry of a clientside map.
#[derive(Debug, PartialEq)]
pub struct LabelEntry {
    pub label: String,
    pub text: String,
}

/// Mathematical view of a clientside map entry.
#[verifier::ext_equal]
pub struct LabelEntryView {
    pub label: Seq<char>,
    pub text: Seq<char>,
}

impl View for LabelEntry {
    type V = LabelEntryView;

    open spec fn view(&self) -> LabelEntryView {
        LabelEntryView { label: self.label@, text: self.text@ }
    }
}

impl DeepView for LabelEntry {
    type V = LabelEntryView;

    open spec fn deep_view(&self) -> LabelEntryView {
        self.view()
    }
}

pub open spec fn entry_label_pred(label: Seq<char>) -> spec_fn(LabelEntryView) -> bool {
    |e: LabelEntryView| e.label == label
}

/// Index of the first entry carrying `label`, or the map's length if absent.
pub open spec fn map_index_of(m: Seq<LabelEntryView>, label: Seq<char>) -> int {
    first_where(m, entry_label_pred(label))
}

pub open spec fn map_contains(m: Seq<LabelEntryView>, label: Seq<char>) -> bool {
    map_index_of(m, label) < m.len()
}

/// The text stored under `label`; meaningful only when the map contains it.
pub open spec fn map_get(m: Seq<LabelEntryView>, label: Seq<char>) -> Seq<char> {
    m[map_index_of(m, label)].text
}

/// No label occurs twice.
pub open spec fn map_unique(m: Seq<LabelEntryView>) -> bool {
    forall|i: int, j: int| 0 <= i < j < m.len() ==> m[i].label != m[j].label
}

/// A clientside map: label→text entries kept in first-insertion order, which
/// is deterministic for a given input.
#[derive(Debug, PartialEq)]
pub struct LabelMap {
    pub entries: Vec<LabelEntry>,
}

impl View for LabelMap {
    type V = Seq<LabelEntryView>;

    open spec fn view(&self) -> Seq<LabelEntryView> {
        self.entries.deep_view()
    }
}

impl LabelMap {
    pub fn new() -> (r: LabelMap)
        ensures
            r@ == Seq::<LabelEntryView>::empty(),
    {
        let r = LabelMap { entries: Vec::new() };
        proof {
            assert(r@ =~= Seq::<LabelEntryView>::empty());
        }
        r
    }

    pub fn len(&self) -> (r: usize)
        ensures
            r == self@.len(),
    {
        self.entries.len()
    }

    /// Position of the first entry carrying `label`, or the length if absent.
    pub fn index_of(&self, label: &str) -> (r: usize)
        ensures
            r as int == map_index_of(self@, label@),
    {
        let mut i: usize = 0;
        while i < self.entries.len()
            invariant
                i <= self@.len(),
                self@.len() == self.entries@.len(),
                forall|j: int| 0 <= j < i ==> self@[j].label != label@,
            decreases self@.len() - i,
        {
            if str_eq(self.entries[i].label.as_str(), label) {
                proof {
                    lemma_first_where_is(self@, entry_label_pred(label@), i as int);
                }
                return i;
            }
            i = i + 1;
        }
        proof {
            lemma_first_where_is(self@, entry_label_pred(label@), i as int);
        }
        i
    }

    pub fn contains_label(&self, label: &str) -> (r: bool)
        ensures
            r == map_contains(self@, label@),
    {
        self.index_of(label) < self.entries.len()
    }

    /// The text stored under `label`, if any.
    pub fn get(&self, label: &str) -> (r: Option<&String>)
        ensures
            match r {
                Some(t) => map_contains(self@, label@) && t@ == map_get(self@, label@),
                None => !map_contains(self@, label@),
            },
    {
        let i = self.index_of(label);
        if i < self.entries.len() {
            Some(&self.entries[i].text)
        } else {
            None
        }
    }
}

/// The entry a non-skipped clientside line yields: the part before the first
/// tab is the label, everything after it the text; a line with no tab has an
/// empty text.
pub open spec fn spec_client_entry(line: Seq<char>) -> LabelEntryView {
    let k = first_where(line, char_pred('\t'));
    LabelEntryView {
        label: line.take(k),
        text: if k == line.len() {
            Seq::empty()
        } else {
            line.skip(k + 1)
        },
    }
}

/// Folds the clientside lines over a map, failing with `LabelDuplicate` on a
/// repeated label.
pub open spec fn spec_parse_client_lines(
    lines: Seq<Seq<char>>,
    m: Seq<LabelEntryView>,
) -> Result<Seq<LabelEntryView>, ParseErrorView>
    decreases lines.len(),
{
    if lines.len() == 0 {
        Ok(m)
    } else {
        let line = spec_trim(lines[0]);
        if spec_omit_line(line) {
            spec_parse_client_lines(lines.drop_first(), m)
        } else {
            let e = spec_client_entry(line);
            if map_contains(m, e.label) {
                Err(ParseErrorView::LabelDuplicate(e.label))
            } else {
                spec_parse_client_lines(lines.drop_first(), m.push(e))
            }
        }
    }
}

/// The clientside parse of a whole text.
pub open spec fn spec_parse_clientside(text: Seq<char>) -> Result<
    Seq<LabelEntryView>,
    ParseErrorView,
> {
    spec_parse_client_lines(spec_split(text, '\n'), Seq::empty())
}

/// Parses a single-language flat file into a label→text map, failing with
/// `LabelDuplicate` on a repeated label; the resulting map's labels are
/// unique.
pub fn parse_clientside(data: &str) -> (r: Result<LabelMap, ParseError>)
    ensures
        match r {
            Ok(m) => spec_parse_clientside(data@) == Ok::<Seq<LabelEntryView>, ParseErrorView>(m@)
                && map_unique(m@),
            Err(e) => spec_parse_clientside(data@) == Err::<Seq<LabelEntryView>, ParseErrorView>(
                e@,
            ),
        },
{
    let n = data.unicode_len();
    let mut m = LabelMap::new();
    let mut i: usize = 0;
    proof {
        assert(data@.skip(0) =~= data@);
    }
    while i <= n
        invariant
            n == data@.len(),
            i <= n,
            map_unique(m@),
            spec_parse_clientside(data@) == spec_parse_client_lines(
                spec_split(data@.skip(i as int), '\n'),
                m@,
            ),
        decreases n + 1 - i,
    {
        let k = find_char_from(data, i, '\n');
        let raw = data.substring_char(i, k);
        let ghost prev = m@;
        proof {
            let rest = data@.skip(i as int);
            assert forall|j: int| 0 <= j < k - i implies !(char_pred('\n')(rest[j])) by {
                assert(rest[j] == data@[i + j]);
            }
            if k - i < rest.len() {
                assert(rest[k - i] == data@[k as int]);
            }
            lemma_first_where_is(rest, char_pred('\n'), k - i);
            assert(raw@ =~= rest.take(k - i));
            let pieces = spec_split(rest, '\n');
            if k < n {
                assert(pieces == seq![rest.take(k - i)] + spec_split(rest.skip(k - i + 1), '\n'));
                assert(pieces[0] == raw@);
                assert(pieces.drop_first() =~= spec_split(rest.skip(k - i + 1), '\n'));
                assert(rest.skip(k - i + 1) =~= data@.skip(k + 1));
            } else {
                assert(k == n);
                assert(rest.take(k - i) =~= rest);
                assert(pieces == seq![rest]);
                assert(pieces[0] == raw@);
                assert(pieces.drop_first() =~= Seq::<Seq<char>>::empty());
            }
        }
        let line = trim_str(raw);
        if !omit_line(line) {
            let ln = line.unicode_len();
            let k2 = find_char_from(line, 0, '\t');
            let label = line.substring_char(0, k2);
            proof {
                lemma_first_where_is(line@, char_pred('\t'), k2 as int);
                assert(label@ =~= line@.take(k2 as int));
            }
            if m.contains_label(label) {
                return Err(ParseError::LabelDuplicate(label.to_owned()));
            }
            let text: String = if k2 < ln {
                line.substring_char(k2 + 1, ln).to_owned()
            } else {
                String::new()
            };
            proof {
                if k2 < ln {
                    assert(text@ =~= line@.skip(k2 + 1));
                } else {
                    assert(text@ =~= Seq::<char>::empty());
                }
                assert(LabelEntryView { label: label@, text: text@ } =~= spec_client_entry(
                    line@,
                ));
                lemma_first_where_bounds(prev, entry_label_pred(label@));
            }
            m.entries.push(LabelEntry { label: label.to_owned(), text });
            proof {
                assert(m@ =~= prev.push(spec_client_entry(line@)));
            }
        }
        if k == n {
            return Ok(m);
        }
        i = k + 1;
    }
    Ok(m)
}

} // verus!
