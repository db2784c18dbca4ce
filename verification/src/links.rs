use crate::text::{contains, occurs_in};
use crate::views::views;
use url::{ParseError, Url};
use vstd::prelude::*;

verus! {

/// The error of the URL parser, `url::ParseError`. Nothing is said of what
/// it holds.
#[verifier::external_type_specification]
#[verifier::external_body]
pub struct ExParseError(ParseError);

/// What the URL parser makes of a text.
pub enum Parsed {
    /// An absolute URL, with the text that the parser writes for it.
    Absolute(Seq<char>),
    /// A reference that needs a base to become a URL.
    Relative,
    /// Nothing that can be followed.
    Invalid,
}

/// What `url::Url::parse` makes of `input`: for `Ok`, `Absolute` with the
/// URL's serialization; for the error `RelativeUrlWithoutBase`, `Relative`;
/// for any other error, `Invalid`.
pub uninterp spec fn url_parse(input: Seq<char>) -> Parsed;

/// The serialization of the URL that `url::Url::join` makes of `input` on the
/// URL that `base` parses to; `None` where `base` does not parse or the join
/// fails.
pub uninterp spec fn url_join(base: Seq<char>, input: Seq<char>) -> Option<Seq<char>>;

/// The serialization of the URL that `url` parses to, after
/// `url::Url::set_fragment(None)` has removed its fragment; `None` where `url`
/// does not parse.
pub uninterp spec fn url_without_fragment(url: Seq<char>) -> Option<Seq<char>>;

/// What parsing a text as an absolute URL gave.
enum Parse {
    /// An absolute URL, as the parser writes it.
    Absolute(String),
    /// The text is a reference that needs a base.
    Relative(ParseError),
    /// The text cannot be parsed.
    Invalid(ParseError),
}

/// Calls `url::Url::parse` on `input`. The contract claims that the outcome
/// is the one that `url_parse` names for this text: the URL's serialization
/// on success, and which of the two kinds of error it was.
#[verifier::external_body]
fn parse_url(input: &str) -> (parse: Parse)
    ensures
        match parse {
            Parse::Absolute(url) => url_parse(input@) == Parsed::Absolute(url@),
            Parse::Relative(_) => url_parse(input@) == Parsed::Relative,
            Parse::Invalid(_) => url_parse(input@) == Parsed::Invalid,
        },
{
    match Url::parse(input) {
        Ok(url) => Parse::Absolute(url.into()),
        Err(error @ ParseError::RelativeUrlWithoutBase) => Parse::Relative(error),
        Err(error) => Parse::Invalid(error),
    }
}

/// Parses `base` with `url::Url::parse` and calls `url::Url::join` on the
/// result with `input`. The contract claims that the outcome is the one that
/// `url_join` names for these two texts: the joined URL's serialization, or
/// an error where `base` does not parse or the join fails.
#[verifier::external_body]
fn join_url(base: &str, input: &str) -> (joined: Result<String, ParseError>)
    ensures
        match joined {
            Ok(url) => url_join(base@, input@) == Some(url@),
            Err(_) => url_join(base@, input@) is None,
        },
{
    match Url::parse(base) {
        Ok(base) => match base.join(input) {
            Ok(url) => Ok(url.into()),
            Err(error) => Err(error),
        },
        Err(error) => Err(error),
    }
}

/// Parses `url` with `url::Url::parse` and calls `url::Url::set_fragment` on
/// the result with `None`. The contract claims that the outcome is the one
/// that `url_without_fragment` names for this text: the serialization of the
/// URL without its fragment, or an error where `url` does not parse.
#[verifier::external_body]
fn strip_fragment(url: &str) -> (stripped: Result<String, ParseError>)
    ensures
        match stripped {
            Ok(clean) => url_without_fragment(url@) == Some(clean@),
            Err(_) => url_without_fragment(url@) is None,
        },
{
    match Url::parse(url) {
        Ok(mut parsed) => {
            parsed.set_fragment(None);
            Ok(parsed.into())
        },
        Err(error) => Err(error),
    }
}

/// The URL that `text` stands for, in the form in which URLs are kept and
/// compared: absolute, as the parser writes it, and without fragment.
pub open spec fn normal_url(text: Seq<char>) -> Option<Seq<char>> {
    match url_parse(text) {
        Parsed::Absolute(url) => url_without_fragment(url),
        _ => None,
    }
}

/// What becomes of a link of a page.
pub enum Link {
    /// It is followed, as this URL.
    Keep(Seq<char>),
    /// It is passed over.
    Skip,
    /// It cannot be resolved, which ends the work on the page.
    Fail,
}

/// What becomes of the link that resolved to `url` on the page at `base`: it
/// is kept, without its fragment, where what is left holds `base` as a part
/// of its text. A `url` that the parser does not take is passed over, like a
/// link that cannot be parsed.
pub open spec fn confine(base: Seq<char>, url: Seq<char>) -> Link {
    match url_without_fragment(url) {
        Some(clean) => if occurs_in(clean, base) {
            Link::Keep(clean)
        } else {
            Link::Skip
        },
        None => Link::Skip,
    }
}

/// What becomes of the link `href` on the page at `base`: an absolute URL
/// stands for itself, a relative reference is resolved against `base`, and
/// anything else is passed over.
pub open spec fn link_of(base: Seq<char>, href: Seq<char>) -> Link {
    match url_parse(href) {
        Parsed::Absolute(url) => confine(base, url),
        Parsed::Relative => match url_join(base, href) {
            Some(url) => confine(base, url),
            None => Link::Fail,
        },
        Parsed::Invalid => Link::Skip,
    }
}

/// The URL under which `href` is followed from the page at `base`, if it is.
pub open spec fn followed(base: Seq<char>, href: Seq<char>) -> Option<Seq<char>> {
    match link_of(base, href) {
        Link::Keep(url) => Some(url),
        _ => None,
    }
}

/// The URLs that are followed from the page at `base` with the links
/// `hrefs`, in the order of the links.
pub open spec fn kept_links(base: Seq<char>, hrefs: Seq<Seq<char>>) -> Seq<Seq<char>> {
    hrefs.filter_map(|href: Seq<char>| followed(base, href))
}

/// Whether one of the links `hrefs` of the page at `base` cannot be resolved.
pub open spec fn has_failure(base: Seq<char>, hrefs: Seq<Seq<char>>) -> bool {
    exists|i: int| 0 <= i < hrefs.len() && link_of(base, #[trigger] hrefs[i]) is Fail
}

/// Links that differ only by their fragment are the same link: two URLs that
/// are the same once their fragments are removed are kept as the same URL or
/// passed over together.
pub proof fn lemma_fragment_is_ignored(base: Seq<char>, one: Seq<char>, other: Seq<char>)
    requires
        url_without_fragment(one) == url_without_fragment(other),
    ensures
        confine(base, one) == confine(base, other),
{
}

/// A link is followed only under a URL that holds the URL of its page as a
/// part of its text.
pub proof fn lemma_kept_links_hold_base(base: Seq<char>, hrefs: Seq<Seq<char>>, i: int)
    requires
        0 <= i < kept_links(base, hrefs).len(),
    ensures
        occurs_in(kept_links(base, hrefs)[i], base),
{
    let follow = |href: Seq<char>| followed(base, href);
    let url = kept_links(base, hrefs)[i];
    hrefs.lemma_filter_map_contains(follow, url);
}

/// The URL that `text` stands for, in the form in which URLs are kept and
/// compared, or the parser's error where it stands for none.
pub fn normalize(text: &str) -> (url: Result<String, ParseError>)
    ensures
        match url {
            Ok(url) => normal_url(text@) == Some(url@),
            Err(_) => normal_url(text@) is None,
        },
{
    match parse_url(text) {
        Parse::Absolute(url) => strip_fragment(url.as_str()),
        Parse::Relative(error) => Err(error),
        Parse::Invalid(error) => Err(error),
    }
}

/// Keeps the link that resolved to `url` on the page at `base`, without its
/// fragment, where what is left holds `base` as a part of its text.
fn confine_link(base: &str, url: &str) -> (kept: Option<String>)
    ensures
        match kept {
            Some(clean) => confine(base@, url@) == Link::Keep(clean@),
            None => confine(base@, url@) == Link::Skip,
        },
{
    match strip_fragment(url) {
        Ok(clean) => {
            if contains(clean.as_str(), base) {
                Some(clean)
            } else {
                None
            }
        },
        Err(_) => None,
    }
}

/// What becomes of the link `href` on the page at `base`: the URL under
/// which it is followed, `None` where it is passed over, and the parser's
/// error where it is a relative reference that cannot be resolved.
pub fn resolve(base: &str, href: &str) -> (link: Result<Option<String>, ParseError>)
    ensures
        match link {
            Ok(Some(url)) => link_of(base@, href@) == Link::Keep(url@),
            Ok(None) => link_of(base@, href@) == Link::Skip,
            Err(_) => link_of(base@, href@) == Link::Fail,
        },
{
    match parse_url(href) {
        Parse::Absolute(url) => Ok(confine_link(base, url.as_str())),
        Parse::Relative(_) => match join_url(base, href) {
            Ok(url) => Ok(confine_link(base, url.as_str())),
            Err(error) => Err(error),
        },
        Parse::Invalid(_) => Ok(None),
    }
}

/// The URLs that are followed from the page at `base` with the links
/// `hrefs`, in the order of the links, or the parser's error for the first
/// link that cannot be resolved.
pub fn resolve_all(base: &str, hrefs: &Vec<String>) -> (links: Result<Vec<String>, ParseError>)
    ensures
        match links {
            Ok(urls) => !has_failure(base@, views(hrefs@)) && views(urls@) == kept_links(
                base@,
                views(hrefs@),
            ),
            Err(_) => has_failure(base@, views(hrefs@)),
        },
{
    let ghost follow = |href: Seq<char>| followed(base@, href);
    let mut urls: Vec<String> = Vec::new();
    let mut i: usize = 0;
    while i < hrefs.len()
        invariant
            i <= hrefs.len(),
            follow == (|href: Seq<char>| followed(base@, href)),
            views(urls@) == views(hrefs@).take(i as int).filter_map(follow),
            forall|k: int| 0 <= k < i ==> !(link_of(base@, #[trigger] views(hrefs@)[k]) is Fail),
        decreases hrefs.len() - i,
    {
        proof {
            views(hrefs@).lemma_filter_map_take_succ(follow, i as int);
        }
        match resolve(base, hrefs[i].as_str()) {
            Ok(Some(url)) => {
                urls.push(url);
            },
            Ok(None) => {},
            Err(error) => {
                return Err(error);
            },
        }
        i += 1;
    }
    assert(views(hrefs@).take(hrefs.len() as int) =~= views(hrefs@));
    Ok(urls)
}

} // verus!
