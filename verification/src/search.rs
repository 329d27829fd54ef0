//! The redirect/ambiguity resolver and the whole lookup: the resolver
//! inspects the container's visible text for two fixed sentinel phrases
//! and decides between the ambiguous, not-found and found paths; on the
//! found path the entry blocks are folded into the result mapping.

use vstd::prelude::*;
use vstd::string::StrSliceExecFns;

use crate::builder::{build_entries, spec_build};
use crate::model::{Outcome, OutcomeModel, WebScrapError};
use crate::page::{PageModel, ResultsPage};
use crate::text::{
    contains_seq, find_char, lemma_find_char_in_bounds, str_contains, str_find_char,
};

verus! {

/// The phrase that marks a page offering a related entry instead of the
/// word that was looked up.  It is tested before the not-found phrase:
/// an ambiguous page may incidentally carry that one too.
pub open spec fn ambiguity_sentinel() -> Seq<char> {
    " La entrada que se muestra a continuación podría estar relacionada:"@
}

/// The phrase that marks a page reporting that the word is not in the
/// dictionary.
pub open spec fn notfound_sentinel() -> Seq<char> {
    "Aviso: "@
}

/// The suggested word: the first anchor's text, cut before its first
/// comma so that trailing qualifiers are discarded.
pub open spec fn spec_suggestion(t: Seq<char>) -> Seq<char> {
    match find_char(t, ',') {
        Option::None => t,
        Option::Some(i) => t.subrange(0, i),
    }
}

/// The outcome of one lookup over the modelled results container.  The
/// resolver runs first on the whole visible text; only the found path
/// reads the entry blocks.
pub open spec fn spec_search(page: PageModel) -> Result<OutcomeModel, WebScrapError> {
    if contains_seq(page.text, ambiguity_sentinel()) {
        match page.first_anchor_text {
            Option::None => Result::Err(WebScrapError::MissingAnchor),
            Option::Some(t) => Result::Ok(OutcomeModel::Ambiguous(spec_suggestion(t))),
        }
    } else if contains_seq(page.text, notfound_sentinel()) {
        Result::Ok(OutcomeModel::NotFound)
    } else {
        match spec_build(page.blocks) {
            Result::Err(e) => Result::Err(e),
            Result::Ok(m) => Result::Ok(OutcomeModel::Found(m)),
        }
    }
}

/// Looks a results container up, following `spec_search` exactly: the
/// outcome on every input the markup grammar allows, and the precise
/// structural violation on every input it does not.
pub fn search(page: &ResultsPage) -> (r: Result<Outcome, WebScrapError>)
    ensures
        match (r, spec_search(page@)) {
            (Result::Ok(o), Result::Ok(m)) => o@ == m && o.wf(),
            (Result::Err(e1), Result::Err(e2)) => e1 == e2,
            _ => false,
        },
{
    if str_contains(
        page.text.as_str(),
        " La entrada que se muestra a continuación podría estar relacionada:",
    ) {
        match &page.first_anchor_text {
            Option::None => Result::Err(WebScrapError::MissingAnchor),
            Option::Some(t) => {
                let w = match str_find_char(t.as_str(), ',') {
                    Option::Some(i) => {
                        proof {
                            lemma_find_char_in_bounds(t@, ',');
                        }
                        t.as_str().substring_char(0, i).to_owned()
                    },
                    Option::None => t.clone(),
                };
                Result::Ok(Outcome::Ambiguous(w))
            },
        }
    } else if str_contains(page.text.as_str(), "Aviso: ") {
        Result::Ok(Outcome::NotFound)
    } else {
        match build_entries(&page.blocks) {
            Result::Ok(d) => Result::Ok(Outcome::Found(d)),
            Result::Err(e) => Result::Err(e),
        }
    }
}

} // verus!
