use crate::document::{payloads, Document, NodeModel};
use crate::views::views;
use regex::Regex;
use vstd::prelude::*;

verus! {

/// The error of the pattern compiler, `regex::Error`. Nothing is said of
/// what it holds.
#[verifier::external_type_specification]
#[verifier::external_body]
pub struct ExPatternError(regex::Error);

/// Whether `regex::Regex::new` accepts `pattern`.
pub uninterp spec fn regex_compiles(pattern: Seq<char>) -> bool;

/// The matches that `regex::Regex::find_iter` yields for `text` with the
/// expression that `pattern` compiles to, each as the text it covers, in the
/// order in which they are yielded.
pub uninterp spec fn regex_find_all(pattern: Seq<char>, text: Seq<char>) -> Seq<Seq<char>>;

/// Calls `regex::Regex::new` on `pattern` and hands out the error, if it gave
/// one. The contract claims that there is none exactly where the pattern
/// compiles, as `regex_compiles` names it.
#[verifier::external_body]
fn pattern_error(pattern: &str) -> (error: Option<regex::Error>)
    ensures
        error is None <==> regex_compiles(pattern@),
{
    Regex::new(pattern).err()
}

/// Compiles `pattern` with `regex::Regex::new` and calls
/// `regex::Regex::find_iter` on the result with `text`, taking of each match
/// the text it covers. The contract claims that the matches are those that
/// `regex_find_all` names for this pattern and text, and that there is a
/// result exactly where the pattern compiles.
#[verifier::external_body]
fn find_all(pattern: &str, text: &str) -> (found: Option<Vec<String>>)
    ensures
        match found {
            Some(matches) => regex_compiles(pattern@) && views(matches@) == regex_find_all(
                pattern@,
                text@,
            ),
            None => !regex_compiles(pattern@),
        },
{
    match Regex::new(pattern) {
        Ok(regex) => Some(regex.find_iter(text).map(|found| found.as_str().to_string()).collect()),
        Err(_) => None,
    }
}

/// The matches of `pattern` in each of `texts`, in the order of the texts
/// and, within a text, of their appearance.
pub open spec fn matches_in(pattern: Seq<char>, texts: Seq<Seq<char>>) -> Seq<Seq<char>> {
    texts.flat_map(|text: Seq<char>| regex_find_all(pattern, text))
}

/// The matches of `pattern` in the texts that the nodes of `doc` carry: in
/// the text nodes, the comments and the attribute values, in document order.
pub open spec fn matched_strings(pattern: Seq<char>, doc: Seq<NodeModel>) -> Seq<Seq<char>> {
    matches_in(pattern, payloads(doc))
}

/// Checks that `pattern` compiles, and hands out the compiler's error where
/// it does not.
pub fn check_pattern(pattern: &str) -> (checked: Result<(), regex::Error>)
    ensures
        checked is Ok <==> regex_compiles(pattern@),
{
    match pattern_error(pattern) {
        Some(error) => Err(error),
        None => Ok(()),
    }
}

/// The matches of `pattern` in each of `texts`, in the order of the texts
/// and, within a text, of their appearance; `None` where `pattern` does not
/// compile.
pub fn find_in_all(pattern: &str, texts: &Vec<&String>) -> (found: Option<Vec<String>>)
    ensures
        match found {
            Some(matches) => regex_compiles(pattern@) && views(matches@) == matches_in(
                pattern@,
                views(texts@),
            ),
            None => !regex_compiles(pattern@),
        },
{
    if pattern_error(pattern).is_some() {
        return None;
    }
    let ghost find = |text: Seq<char>| regex_find_all(pattern@, text);
    let mut matches: Vec<String> = Vec::new();
    let mut i: usize = 0;
    while i < texts.len()
        invariant
            i <= texts.len(),
            regex_compiles(pattern@),
            find == (|text: Seq<char>| regex_find_all(pattern@, text)),
            views(matches@) == views(texts@).take(i as int).flat_map(find),
        decreases texts.len() - i,
    {
        proof {
            views(texts@).lemma_flat_map_take_append(find, i as int);
        }
        match find_all(pattern, texts[i].as_str()) {
            Some(mut more) => {
                matches.append(&mut more);
            },
            None => {
                return None;
            },
        }
        i += 1;
    }
    assert(views(texts@).take(texts.len() as int) =~= views(texts@));
    Some(matches)
}

/// The matches of `pattern` in the texts that the nodes of `doc` carry;
/// `None` where `pattern` does not compile.
pub fn find_in_document(pattern: &str, doc: &Document) -> (found: Option<Vec<String>>)
    ensures
        match found {
            Some(matches) => regex_compiles(pattern@) && views(matches@) == matched_strings(
                pattern@,
                doc@,
            ),
            None => !regex_compiles(pattern@),
        },
{
    let texts = doc.payloads();
    find_in_all(pattern, &texts)
}

} // verus!
