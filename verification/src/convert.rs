//! The legacy flat-format importer: trimmed lines come in consecutive
//! (label, text) pairs for one target language.

use vstd::prelude::*;
use vstd::string::*;

use crate::section::{Language, Section, SectionView, TranslationMap, TranslationsView};
use crate::text::{
    char_pred, drop_leading, drop_trailing, find_char_from, lemma_first_where_is, quote_semi_pred,
    spec_split, spec_trim, strip_quote_semi, trim_str,
};
use crate::parse::spec_omit_line;

verus! {

/// Errors of the legacy importer.
#[derive(Clone, Copy, Debug, PartialEq, Eq, Structural)]
pub enum ConvertError {
    /// No usable line remains.
    Empty,
    /// The number of usable lines, which is odd.
    Syntax(usize),
}

/// A legacy line cleaned for use: trimmed, then stripped of bounding quote
/// and semicolon characters.
pub open spec fn spec_convert_clean(line: Seq<char>) -> Seq<char> {
    drop_trailing(drop_leading(spec_trim(line), quote_semi_pred()), quote_semi_pred())
}

/// The usable lines of a legacy text: each line cleaned, then blank lines
/// and `#`-prefixed comments dropped.
pub open spec fn spec_convert_lines(lines: Seq<Seq<char>>) -> Seq<Seq<char>>
    decreases lines.len(),
{
    if lines.len() == 0 {
        Seq::empty()
    } else {
        let c = spec_convert_clean(lines[0]);
        let rest = spec_convert_lines(lines.drop_first());
        if spec_omit_line(c) {
            rest
        } else {
            seq![c] + rest
        }
    }
}

/// Consecutive pairs of usable lines, each turned into a section holding the
/// pair's second line as the text for `lang`.
pub open spec fn spec_pair_sections(ls: Seq<Seq<char>>, lang: Language) -> Seq<SectionView>
    decreases ls.len(),
{
    if ls.len() < 2 {
        Seq::empty()
    } else {
        seq![
            SectionView { label: ls[0], translations: TranslationsView::empty().insert(lang, ls[1]) },
        ] + spec_pair_sections(ls.skip(2), lang)
    }
}

/// Collects the usable lines of a legacy text, as `spec_convert_lines`
/// describes.
fn convert_lines(data: &str) -> (kept: Vec<String>)
    ensures
        kept.deep_view() == spec_convert_lines(spec_split(data@, '\n')),
{
    let n = data.unicode_len();
    let mut kept: Vec<String> = Vec::new();
    let mut i: usize = 0;
    let ghost all = spec_convert_lines(spec_split(data@, '\n'));
    proof {
        assert(data@.skip(0) =~= data@);
        assert(kept.deep_view() =~= Seq::<Seq<char>>::empty());
        assert(Seq::<Seq<char>>::empty() + all =~= all);
    }
    while i <= n
        invariant
            n == data@.len(),
            i <= n,
            all == spec_convert_lines(spec_split(data@, '\n')),
            all == kept.deep_view() + spec_convert_lines(spec_split(data@.skip(i as int), '\n')),
        decreases n + 1 - i,
    {
        let k = find_char_from(data, i, '\n');
        let raw = data.substring_char(i, k);
        let ghost prevkept = kept.deep_view();
        proof {
            let rest = data@.skip(i as int);
            assert forall|j: int| 0 <= j < k - i implies !(char_pred('\n')(rest[j])) by {
                assert(rest[j] == data@[i + j]);
            }
            if k - i < rest.len() {
                assert(rest[k - i] == data@[k as int]);
            }
            lemma_first_where_is(rest, char_pred('\n'), k - i);
            assert(raw@ =~= rest.take(k - i));
            let pieces = spec_split(rest, '\n');
            if k < n {
                assert(pieces == seq![rest.take(k - i)] + spec_split(rest.skip(k - i + 1), '\n'));
                assert(pieces[0] == raw@);
                assert(pieces.drop_first() =~= spec_split(rest.skip(k - i + 1), '\n'));
                assert(rest.skip(k - i + 1) =~= data@.skip(k + 1));
            } else {
                assert(k == n);
                assert(rest.take(k - i) =~= rest);
                assert(pieces == seq![rest]);
                assert(pieces[0] == raw@);
                assert(pieces.drop_first() =~= Seq::<Seq<char>>::empty());
            }
        }
        let cleaned = strip_quote_semi(trim_str(raw));
        if !(cleaned.unicode_len() == 0 || cleaned.get_char(0) == '#') {
            kept.push(cleaned.to_owned());
            proof {
                assert(kept.deep_view() =~= prevkept + seq![cleaned@]);
                assert(prevkept + (seq![cleaned@] + spec_convert_lines(
                    spec_split(data@.skip(i as int), '\n').drop_first(),
                )) =~= (prevkept + seq![cleaned@]) + spec_convert_lines(
                    spec_split(data@.skip(i as int), '\n').drop_first(),
                ));
            }
        }
        if k == n {
            proof {
                assert(kept.deep_view() + Seq::<Seq<char>>::empty() =~= kept.deep_view());
            }
            return kept;
        }
        i = k + 1;
    }
    proof {
        assert(kept.deep_view() + Seq::<Seq<char>>::empty() =~= kept.deep_view());
        assert(all == kept.deep_view());
    }
    kept
}

/// Imports a legacy flat file: the usable lines must come in an even,
/// positive count; consecutive pairs become sections labelled by the first
/// line of the pair, with the second line as the text for `lang`.
pub fn convert_data(data: &str, lang: Language) -> (r: Result<Vec<Section>, ConvertError>)
    ensures
        ({
            let kept = spec_convert_lines(spec_split(data@, '\n'));
            match r {
                Ok(v) => kept.len() > 0 && kept.len() % 2 == 0 && v.deep_view()
                    == spec_pair_sections(kept, lang),
                Err(ConvertError::Empty) => kept.len() == 0,
                Err(ConvertError::Syntax(c)) => kept.len() > 0 && kept.len() % 2 != 0 && c
                    == kept.len(),
            }
        }),
{
    let kept = convert_lines(data);
    let ghost all = spec_convert_lines(spec_split(data@, '\n'));
    if kept.len() == 0 {
        return Err(ConvertError::Empty);
    }
    if kept.len() % 2 != 0 {
        return Err(ConvertError::Syntax(kept.len()));
    }
    let mut sections: Vec<Section> = Vec::new();
    let mut j: usize = 0;
    proof {
        assert(kept.deep_view().skip(0) =~= kept.deep_view());
        assert(sections.deep_view() =~= Seq::<SectionView>::empty());
        assert(Seq::<SectionView>::empty() + spec_pair_sections(kept.deep_view(), lang)
            =~= spec_pair_sections(kept.deep_view(), lang));
    }
    while j < kept.len()
        invariant
            j <= kept@.len(),
            j % 2 == 0,
            kept@.len() % 2 == 0,
            kept.deep_view() == all,
            spec_pair_sections(all, lang) == sections.deep_view() + spec_pair_sections(
                all.skip(j as int),
                lang,
            ),
        decreases kept@.len() - j,
    {
        let ghost prevs = sections.deep_view();
        let label = kept[j].clone();
        let text = kept[j + 1].clone();
        let mut tm = TranslationMap::new();
        tm.insert(lang, text);
        sections.push(Section { label, translations: tm });
        proof {
            let tail = all.skip(j as int);
            assert(tail[0] == all[j as int]);
            assert(tail[1] == all[j + 1]);
            assert(tail.skip(2) =~= all.skip(j + 2));
            assert(sections.deep_view() =~= prevs + seq![
                SectionView {
                    label: all[j as int],
                    translations: TranslationsView::empty().insert(lang, all[j + 1]),
                },
            ]);
            assert(prevs + (seq![
                SectionView {
                    label: all[j as int],
                    translations: TranslationsView::empty().insert(lang, all[j + 1]),
                },
            ] + spec_pair_sections(all.skip(j + 2), lang)) =~= sections.deep_view()
                + spec_pair_sections(all.skip(j + 2), lang));
        }
        j = j + 2;
    }
    proof {
        assert(all.skip(j as int).len() == 0);
        assert(sections.deep_view() + spec_pair_sections(all.skip(j as int), lang)
            =~= sections.deep_view());
    }
    Ok(sections)
}

} // verus!
