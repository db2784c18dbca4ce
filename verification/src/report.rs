use crate::crawler::{CrawlerError, CrawlerResult, ResultModel};
use crate::text::{contains, occurs_in};
use crate::views::views;
use vstd::prelude::*;

verus! {

/// Whether a result may be reported where URLs that hold `disallowed` may not.
pub open spec fn allowed(result: ResultModel, disallowed: Seq<char>) -> bool {
    !occurs_in(result.url, disallowed)
}

/// The results whose URL does not hold `disallowed`, in their order.
pub open spec fn retained(results: Seq<ResultModel>, disallowed: Seq<char>) -> Seq<ResultModel> {
    results.filter(|result: ResultModel| allowed(result, disallowed))
}

/// Removes the results whose URL holds `disallowed` as a part of its text,
/// and keeps the others in their order.
pub fn exclude(results: Vec<CrawlerResult>, disallowed: &str) -> (kept: Vec<CrawlerResult>)
    ensures
        views(kept@) == retained(views(results@), disallowed@),
{
    let ghost keep = |result: ResultModel| allowed(result, disallowed@);
    let mut kept: Vec<CrawlerResult> = Vec::new();
    for result in it: results
        invariant
            keep == (|result: ResultModel| allowed(result, disallowed@)),
            it.seq() == results@,
            views(kept@) == views(results@).take(it.index()).filter(keep),
    {
        proof {
            let seen = views(results@).take(it.index());
            assert(views(results@).take(it.index() + 1) =~= seen.push(result@));
            seen.lemma_filter_push(result@, keep);
        }
        if !contains(result.url.as_str(), disallowed) {
            kept.push(result);
        }
    }
    assert(views(results@).take(results@.len() as int) =~= views(results@));
    kept
}

/// The pattern that the service looks for in every page.
pub const TARGET_PATTERN: &'static str = "MBSD\\{[0-9a-zA-Z]+\\}";

/// What the URL of a page must not hold for the page to be reported.
pub const EXCLUDED: &'static str = ".xml";

/// What the service reports of a crawl that went well.
#[derive(Debug, PartialEq, Eq)]
pub struct CrawlReport {
    /// What was found, page by page, in the order in which they were examined.
    pub crawler_results: Vec<CrawlerResult>,
}

/// The answer of the service to a request.
#[derive(Debug, PartialEq, Eq)]
pub enum RequestResult {
    /// The crawl went well.
    Crawled(CrawlReport),
    /// The crawl could not start or did not end well, with the reason.
    Error(String),
}

/// The answer of the service for the outcome of a crawl: for results, those
/// whose URL does not hold `EXCLUDED`, in their order; for an error, its
/// message.
pub fn respond(outcome: Result<Vec<CrawlerResult>, CrawlerError>) -> (answer: RequestResult)
    ensures
        match outcome {
            Ok(results) => answer matches RequestResult::Crawled(report) && views(
                report.crawler_results@,
            ) == retained(views(results@), EXCLUDED@),
            Err(error) => answer matches RequestResult::Error(message) && message@
                == error.message_text(),
        },
{
    match outcome {
        Ok(results) => RequestResult::Crawled(
            CrawlReport { crawler_results: exclude(results, EXCLUDED) },
        ),
        Err(error) => RequestResult::Error(error.message()),
    }
}

} // verus!
