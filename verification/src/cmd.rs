//! Document-level operations behind the tool's actions: whole-document
//! serialization, report joining, and the merge and convert pipelines from
//! input text to output text.

use vstd::prelude::*;
use vstd::string::*;

use crate::convert::{convert_data, spec_convert_lines, spec_pair_sections, ConvertError};
use crate::find::{check_arguments, spec_first_args_mismatch};
use crate::parse::{merge_sections, parse_data, spec_merge, spec_parse, ParseError, ParseErrorView};
use crate::section::{spec_generate, Language, Section, SectionView};
use crate::text::spec_split;

verus! {

/// The two file families the tool handles: the tagged serverside format and
/// the flat clientside format.
#[derive(Clone, Copy, Debug, PartialEq, Eq, Structural)]
pub enum LocaleType {
    LocaleString,
    LocaleGameInterface,
}

/// The actions the tool offers.
#[derive(Clone, Copy, Debug, PartialEq, Eq, Structural)]
pub enum Action {
    Merge,
    Convert,
    FindIncomplete,
    CheckArguments,
    CheckTranslationsDiversity,
}

/// A whole document serialized: each section followed by a blank line.
pub open spec fn spec_generate_document(doc: Seq<SectionView>) -> Seq<char>
    decreases doc.len(),
{
    if doc.len() == 0 {
        Seq::empty()
    } else {
        spec_generate(doc[0]) + "\n\n"@ + spec_generate_document(doc.drop_first())
    }
}

/// Serializes a whole document, as `spec_generate_document` describes.
pub fn generate_document(sections: &Vec<Section>) -> (r: String)
    ensures
        r@ == spec_generate_document(sections.deep_view()),
{
    let ghost doc = sections.deep_view();
    let mut out = String::new();
    let mut i: usize = 0;
    proof {
        assert(doc.skip(0) =~= doc);
        assert(Seq::<char>::empty() + spec_generate_document(doc) =~= spec_generate_document(doc));
    }
    while i < sections.len()
        invariant
            i <= doc.len(),
            doc == sections.deep_view(),
            spec_generate_document(doc) == out@ + spec_generate_document(doc.skip(i as int)),
        decreases doc.len() - i,
    {
        let ghost prev = out@;
        proof {
            let tail = doc.skip(i as int);
            assert(tail[0] == doc[i as int]);
            assert(tail.drop_first() =~= doc.skip(i + 1));
        }
        let piece = sections[i].generate();
        out.append(piece.as_str());
        out.append("\n\n");
        proof {
            assert(prev + (spec_generate(doc[i as int]) + "\n\n"@ + spec_generate_document(
                doc.skip(i + 1),
            )) =~= out@ + spec_generate_document(doc.skip(i + 1)));
        }
        i = i + 1;
    }
    proof {
        assert(doc.skip(i as int).len() == 0);
        assert(out@ + spec_generate_document(doc.skip(i as int)) =~= out@);
    }
    out
}

/// A report: each item followed by a newline.
pub open spec fn spec_join_lines(items: Seq<Seq<char>>) -> Seq<char>
    decreases items.len(),
{
    if items.len() == 0 {
        Seq::empty()
    } else {
        items[0] + "\n"@ + spec_join_lines(items.drop_first())
    }
}

/// Joins report items, one per line, as `spec_join_lines` describes.
pub fn join_lines(items: &Vec<String>) -> (r: String)
    ensures
        r@ == spec_join_lines(items.deep_view()),
{
    let ghost all = items.deep_view();
    let mut out = String::new();
    let mut i: usize = 0;
    proof {
        assert(all.skip(0) =~= all);
        assert(Seq::<char>::empty() + spec_join_lines(all) =~= spec_join_lines(all));
    }
    while i < items.len()
        invariant
            i <= all.len(),
            all == items.deep_view(),
            spec_join_lines(all) == out@ + spec_join_lines(all.skip(i as int)),
        decreases all.len() - i,
    {
        let ghost prev = out@;
        proof {
            let tail = all.skip(i as int);
            assert(tail[0] == all[i as int]);
            assert(tail.drop_first() =~= all.skip(i + 1));
        }
        out.append(items[i].as_str());
        out.append("\n");
        proof {
            assert(prev + (all[i as int] + "\n"@ + spec_join_lines(all.skip(i + 1))) =~= out@
                + spec_join_lines(all.skip(i + 1)));
        }
        i = i + 1;
    }
    proof {
        assert(all.skip(i as int).len() == 0);
        assert(out@ + spec_join_lines(all.skip(i as int)) =~= out@);
    }
    out
}

/// The merge pipeline on texts: parse both documents, overlay the newer one
/// onto the current one, require argument-count parity of the result, and
/// serialize it.
pub open spec fn spec_merge_documents(cur: Seq<char>, newer: Seq<char>) -> Result<
    Seq<char>,
    ParseErrorView,
> {
    match spec_parse(cur) {
        Err(e) => Err(e),
        Ok(base) => match spec_parse(newer) {
            Err(e) => Err(e),
            Ok(inc) => {
                let merged = spec_merge(base, inc);
                match spec_first_args_mismatch(merged) {
                    Some(l) => Err(ParseErrorView::ArgumentMismatch(l)),
                    None => Ok(spec_generate_document(merged)),
                }
            },
        },
    }
}

/// Merges the newer translations in `new_data` onto the current ones in
/// `cur_data` and returns the serialized result, as `spec_merge_documents`
/// describes.
pub fn merge_documents(cur_data: &str, new_data: &str) -> (r: Result<String, ParseError>)
    ensures
        match r {
            Ok(s) => spec_merge_documents(cur_data@, new_data@) == Ok::<Seq<char>, ParseErrorView>(
                s@,
            ),
            Err(e) => spec_merge_documents(cur_data@, new_data@) == Err::<
                Seq<char>,
                ParseErrorView,
            >(e@),
        },
{
    let cur_sections = match parse_data(cur_data) {
        Ok(v) => v,
        Err(e) => {
            return Err(e);
        },
    };
    let new_sections = match parse_data(new_data) {
        Ok(v) => v,
        Err(e) => {
            return Err(e);
        },
    };
    let merged = merge_sections(cur_sections, new_sections);
    match check_arguments(&merged) {
        Ok(_) => {},
        Err(e) => {
            return Err(e);
        },
    }
    Ok(generate_document(&merged))
}

/// The convert pipeline on texts: import a legacy flat file for `lang` and
/// serialize the resulting document.
pub fn convert_document(data: &str, lang: Language) -> (r: Result<String, ConvertError>)
    ensures
        ({
            let kept = spec_convert_lines(spec_split(data@, '\n'));
            match r {
                Ok(s) => kept.len() > 0 && kept.len() % 2 == 0 && s@ == spec_generate_document(
                    spec_pair_sections(kept, lang),
                ),
                Err(ConvertError::Empty) => kept.len() == 0,
                Err(ConvertError::Syntax(c)) => kept.len() > 0 && kept.len() % 2 != 0 && c
                    == kept.len(),
            }
        }),
{
    let sections = match convert_data(data, lang) {
        Ok(v) => v,
        Err(e) => {
            return Err(e);
        },
    };
    Ok(generate_document(&sections))
}

} // verus!
