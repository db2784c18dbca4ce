use crate::clock::{millis_since, now};
use crate::document::{attribute_values, html_nodes, title, Document, NodeModel};
use crate::links::{has_failure, kept_links, normal_url, normalize, resolve_all};
use crate::matcher::{check_pattern, find_in_document, matched_strings, regex_compiles};
use crate::traversal::{skip_visited, Traversal, Walk};
use crate::views::views;
use std::time::Instant;
use vstd::prelude::*;

verus! {

/// The error of the HTTP client, `reqwest::Error`. Nothing is said of what
/// it holds.
#[verifier::external_type_specification]
#[verifier::external_body]
pub struct ExTransportError(reqwest::Error);

/// What a crawl reports of one page.
#[derive(Debug, Clone, PartialEq, Eq)]
pub struct CrawlerResult {
    /// The URL under which the page was asked for.
    pub url: String,
    /// The title of the page; empty where the page has not exactly one.
    pub page_title: String,
    /// The matches of the pattern in the page, in document order.
    pub targets: Vec<String>,
    /// The time that fetching and examining the page took, in milliseconds.
    pub elapsed_ms: u128,
}

/// What a crawl reports of one page, as text.
pub struct ResultModel {
    /// The URL under which the page was asked for.
    pub url: Seq<char>,
    /// The title of the page; empty where the page has not exactly one.
    pub page_title: Seq<char>,
    /// The matches of the pattern in the page, in document order.
    pub targets: Seq<Seq<char>>,
    /// The time that fetching and examining the page took, in milliseconds.
    pub elapsed_ms: u128,
}

impl View for CrawlerResult {
    type V = ResultModel;

    open spec fn view(&self) -> ResultModel {
        ResultModel {
            url: self.url@,
            page_title: self.page_title@,
            targets: views(self.targets@),
            elapsed_ms: self.elapsed_ms,
        }
    }
}

/// Why a crawler could not be made, or why a crawl ended early. Each kind
/// carries the error that caused it.
#[derive(Debug)]
pub enum CrawlerError {
    /// The HTTP client could not be set up.
    ClientBuilder(reqwest::Error),
    /// The pattern does not compile.
    RegexError(regex::Error),
    /// A request could not be sent.
    SendRequest(reqwest::Error),
    /// The server answered with an error status.
    ServerError(reqwest::Error),
    /// The body of an answer could not be read.
    ResponseBody(reqwest::Error),
    /// A URL could not be parsed or resolved.
    ParseUrl(url::ParseError),
}

impl CrawlerError {
    /// The message that tells the kind of error.
    pub open spec fn message_text(self) -> Seq<char> {
        match self {
            CrawlerError::ClientBuilder(_) => "Failed to build client"@,
            CrawlerError::RegexError(_) => "Failed to create regex"@,
            CrawlerError::SendRequest(_) => "Failed to send a request"@,
            CrawlerError::ServerError(_) => "Server returned an error"@,
            CrawlerError::ResponseBody(_) => "Failed to read the response body"@,
            CrawlerError::ParseUrl(_) => "Failed to parse URL"@,
        }
    }

    /// The message that tells the kind of error.
    pub fn message(&self) -> (text: String)
        ensures
            text@ == self.message_text(),
    {
        match self {
            CrawlerError::ClientBuilder(_) => "Failed to build client".to_owned(),
            CrawlerError::RegexError(_) => "Failed to create regex".to_owned(),
            CrawlerError::SendRequest(_) => "Failed to send a request".to_owned(),
            CrawlerError::ServerError(_) => "Server returned an error".to_owned(),
            CrawlerError::ResponseBody(_) => "Failed to read the response body".to_owned(),
            CrawlerError::ParseUrl(_) => "Failed to parse URL".to_owned(),
        }
    }
}

/// What examining one page gave.
#[derive(Debug, PartialEq, Eq)]
pub struct PageReport {
    /// The URLs to follow from the page, in the order of its links.
    pub links: Vec<String>,
    /// The title of the page; empty where the page has not exactly one.
    pub page_title: String,
    /// The matches of the pattern in the page, in document order.
    pub targets: Vec<String>,
}

/// What examining one page gave, as text.
pub struct PageModel {
    /// The URLs to follow from the page, in the order of its links.
    pub links: Seq<Seq<char>>,
    /// The title of the page; empty where the page has not exactly one.
    pub page_title: Seq<char>,
    /// The matches of the pattern in the page, in document order.
    pub targets: Seq<Seq<char>>,
}

impl View for PageReport {
    type V = PageModel;

    open spec fn view(&self) -> PageModel {
        PageModel {
            links: views(self.links@),
            page_title: self.page_title@,
            targets: views(self.targets@),
        }
    }
}

/// The links of `doc`: the `href` values of its `a` elements, in document order.
pub open spec fn hrefs(doc: Seq<NodeModel>) -> Seq<Seq<char>> {
    attribute_values(doc, "a"@, "href"@)
}

/// The title under which a page is reported: its title, or the empty text
/// where it has not exactly one.
pub open spec fn reported_title(doc: Seq<NodeModel>) -> Seq<char> {
    match title(doc) {
        Some(text) => text,
        None => Seq::empty(),
    }
}

/// What examining the page `doc`, which was answered from the URL `base`,
/// gives for `pattern`; `None` where `base` is no URL or a link cannot be
/// resolved.
pub open spec fn examined(pattern: Seq<char>, base: Seq<char>, doc: Seq<NodeModel>) -> Option<
    PageModel,
> {
    match normal_url(base) {
        Some(base) => if has_failure(base, hrefs(doc)) {
            None
        } else {
            Some(
                PageModel {
                    links: kept_links(base, hrefs(doc)),
                    page_title: reported_title(doc),
                    targets: matched_strings(pattern, doc),
                },
            )
        },
        None => None,
    }
}

/// A crawler: the pattern to look for and the URL to start from. The pattern
/// is known to compile; it is kept as text, so that what it matches in a text
/// depends on the two texts alone. The URL is kept as the parser writes it,
/// without fragment.
pub struct Crawler {
    target_regex: String,
    base_url: String,
}

impl Crawler {
    #[verifier::type_invariant]
    spec fn inv(self) -> bool {
        regex_compiles(self.target_regex@)
    }

    /// The pattern that the crawler looks for.
    pub closed spec fn pattern(&self) -> Seq<char> {
        self.target_regex@
    }

    /// The URL that the crawler starts from.
    pub closed spec fn seed(&self) -> Seq<char> {
        self.base_url@
    }

    /// A crawler that looks for `target_regex` and starts from `base_url`.
    /// The pattern is checked first: where it does not compile the error is
    /// `RegexError`, and else, where `base_url` is no absolute URL, `ParseUrl`.
    pub fn new(target_regex: &str, base_url: &str) -> (crawler: Result<Crawler, CrawlerError>)
        ensures
            match crawler {
                Ok(crawler) => {
                    &&& regex_compiles(target_regex@)
                    &&& crawler.pattern() == target_regex@
                    &&& normal_url(base_url@) == Some(crawler.seed())
                },
                Err(error) => if regex_compiles(target_regex@) {
                    error is ParseUrl && normal_url(base_url@) is None
                } else {
                    error is RegexError
                },
            },
    {
        match check_pattern(target_regex) {
            Err(error) => Err(CrawlerError::RegexError(error)),
            Ok(_) => match normalize(base_url) {
                Err(error) => Err(CrawlerError::ParseUrl(error)),
                Ok(url) => Ok(Crawler { target_regex: target_regex.to_owned(), base_url: url }),
            },
        }
    }

    /// The pattern that the crawler looks for.
    pub fn target_regex(&self) -> (pattern: &str)
        ensures
            pattern@ == self.pattern(),
    {
        self.target_regex.as_str()
    }

    /// The URL that the crawler starts from.
    pub fn base_url(&self) -> (url: &str)
        ensures
            url@ == self.seed(),
    {
        self.base_url.as_str()
    }

    /// The URLs to follow from the page `doc`, which was answered from the
    /// URL `base`: for each `href` of an `a` element, in document order, the
    /// URL that it resolves to, without fragment, where that URL holds `base`
    /// as a part of its text. The error is `ParseUrl` where `base` is no URL
    /// or a relative link cannot be resolved.
    pub fn get_links(&self, doc: &Document, base: &str) -> (links: Result<
        Vec<String>,
        CrawlerError,
    >)
        ensures
            match links {
                Ok(urls) => normal_url(base@) matches Some(base) && !has_failure(base, hrefs(doc@))
                    && views(urls@) == kept_links(base, hrefs(doc@)),
                Err(error) => error is ParseUrl && (normal_url(base@) matches Some(base)
                    ==> has_failure(base, hrefs(doc@))),
            },
    {
        let base = match normalize(base) {
            Ok(base) => base,
            Err(error) => {
                return Err(CrawlerError::ParseUrl(error));
            },
        };
        let found = doc.attribute_values("a", "href");
        match resolve_all(base.as_str(), &found) {
            Ok(urls) => Ok(urls),
            Err(error) => Err(CrawlerError::ParseUrl(error)),
        }
    }

    /// The matches of the pattern in the texts that the nodes of `doc` carry:
    /// text, comments and attribute values, in document order.
    pub fn get_matched_strings(&self, doc: &Document) -> (matches: Vec<String>)
        ensures
            views(matches@) == matched_strings(self.pattern(), doc@),
    {
        proof {
            use_type_invariant(self);
        }
        match find_in_document(self.target_regex.as_str(), doc) {
            Some(matches) => matches,
            None => Vec::new(),
        }
    }

    /// The title of `doc`: where exactly one element is called `title` and
    /// its first child is text, that text.
    pub fn get_doc_title(&self, doc: &Document) -> (text: Option<String>)
        ensures
            match text {
                Some(text) => title(doc@) == Some(text@),
                None => title(doc@) is None,
            },
    {
        doc.title()
    }

    /// Examines the page with the text `body` that was answered from the
    /// URL `base`: its links, its title and the matches of the pattern.
    pub fn examine(&self, base: &str, body: &str) -> (page: Result<PageReport, CrawlerError>)
        ensures
            match page {
                Ok(page) => examined(self.pattern(), base@, html_nodes(body@)) == Some(page@),
                Err(error) => error is ParseUrl && examined(
                    self.pattern(),
                    base@,
                    html_nodes(body@),
                ) is None,
            },
    {
        let doc = Document::parse(body);
        let links = match self.get_links(&doc, base) {
            Ok(links) => links,
            Err(error) => {
                return Err(error);
            },
        };
        let targets = self.get_matched_strings(&doc);
        let page_title = match self.get_doc_title(&doc) {
            Some(text) => text,
            None => String::new(),
        };
        Ok(PageReport { links, page_title, targets })
    }
}

/// Where a crawl stands.
#[derive(Clone, Copy, Debug, PartialEq, Eq, Structural)]
pub enum Phase {
    /// No page was asked for yet.
    Idle,
    /// A page is awaited, or pages are left to ask for.
    Running,
    /// Every page was examined: the end of a crawl that went well.
    Done,
    /// A page could not be had or examined: the end of a crawl that did not.
    Failed,
}

/// What came back for the page that a crawl had asked for.
#[derive(Debug)]
pub enum Fetched {
    /// The page came.
    Page {
        /// The URL that the page was answered from, after redirects.
        base: String,
        /// The text of the page.
        body: String,
    },
    /// The reason why the page could not be had.
    Failure(CrawlerError),
}

/// The URLs of `results`, in order.
pub open spec fn urls_of(results: Seq<ResultModel>) -> Seq<Seq<char>> {
    results.map_values(|result: ResultModel| result.url)
}

/// The state of a crawl.
pub struct CrawlModel {
    /// The walk over the pages: the URLs that wait, the URLs whose pages were
    /// examined, and the URL whose page is awaited.
    pub walk: Walk<Seq<char>>,
    /// What was reported of the pages that were examined, in their order.
    pub results: Seq<ResultModel>,
    /// The error that ended the crawl, if one did.
    pub failure: Option<CrawlerError>,
}

impl CrawlModel {
    /// The crawl that is about to start at `seed`.
    pub open spec fn begin(seed: Seq<char>) -> CrawlModel {
        CrawlModel { walk: Walk::new(seed), results: Seq::empty(), failure: None }
    }

    /// No page was examined twice, the page that is awaited was not examined
    /// yet, and one result stands for each page that was examined, in order.
    pub open spec fn wf(self) -> bool {
        &&& self.walk.wf()
        &&& urls_of(self.results) == self.walk.visited
    }

    /// Where the crawl stands.
    pub open spec fn phase(self) -> Phase {
        if self.failure is Some {
            Phase::Failed
        } else if self.walk.finished() {
            Phase::Done
        } else if self.walk.current is None && self.walk.visited.len() == 0 {
            Phase::Idle
        } else {
            Phase::Running
        }
    }

    /// The crawl once it was asked which page to fetch: unless it has failed,
    /// the oldest URL that waits and whose page was not examined yet is the
    /// one whose page is awaited, where none was before.
    pub open spec fn next(self) -> CrawlModel {
        if self.failure is Some {
            self
        } else {
            CrawlModel { walk: self.walk.settle(), results: self.results, failure: None }
        }
    }

    /// The URL whose page is awaited.
    pub open spec fn awaited(self) -> Option<Seq<char>> {
        if self.failure is Some {
            None
        } else {
            self.walk.current
        }
    }

    /// The crawl once `page` has come for the URL whose page is awaited:
    /// its links that lead to pages not examined yet wait behind the others,
    /// the URL counts as examined, and a result stands for it. Where no page
    /// is awaited nothing changes.
    pub open spec fn record(self, page: PageModel, elapsed_ms: u128) -> CrawlModel {
        match self.awaited() {
            Some(url) => CrawlModel {
                walk: self.walk.expand(page.links),
                results: self.results.push(
                    ResultModel {
                        url,
                        page_title: page.page_title,
                        targets: page.targets,
                        elapsed_ms,
                    },
                ),
                failure: None,
            },
            None => self,
        }
    }

    /// The crawl once the page that is awaited could not be had or examined,
    /// for `error`: it has failed. Where no page is awaited nothing changes.
    pub open spec fn fail(self, error: CrawlerError) -> CrawlModel {
        match self.awaited() {
            Some(_) => CrawlModel { walk: self.walk, results: self.results, failure: Some(error) },
            None => self,
        }
    }

    /// Whether `after` is the crawl once `arrived` has come for the page that
    /// was awaited and the next page is asked for: a page is examined for
    /// `pattern` and recorded with the time that it took, or fails the crawl
    /// where it cannot be examined; a failure fails the crawl.
    pub open spec fn executed(
        self,
        pattern: Seq<char>,
        arrived: Option<Fetched>,
        after: CrawlModel,
    ) -> bool {
        match arrived {
            None => after == self.next(),
            Some(Fetched::Failure(error)) => after == self.fail(error).next(),
            Some(Fetched::Page { base, body }) => match examined(
                pattern,
                base@,
                html_nodes(body@),
            ) {
                Some(page) => exists|elapsed_ms: u128|
                    after == #[trigger] self.record(page, elapsed_ms).next(),
                None => exists|error: CrawlerError|
                    error is ParseUrl && after == #[trigger] self.fail(error).next(),
            },
        }
    }

    /// What the crawl hands out when it ends: the error where it has failed,
    /// and else what was reported of the pages.
    pub open spec fn outcome(self) -> Result<Seq<ResultModel>, CrawlerError> {
        match self.failure {
            Some(error) => Err(error),
            None => Ok(self.results),
        }
    }

    /// A crawl that is about to start is well formed and idle.
    pub proof fn lemma_begin(seed: Seq<char>)
        ensures
            CrawlModel::begin(seed).wf(),
            CrawlModel::begin(seed).phase() == Phase::Idle,
    {
        let crawl = CrawlModel::begin(seed);
        assert(urls_of(crawl.results) =~= crawl.walk.visited);
    }

    /// Every step keeps a crawl well formed: no URL is examined twice, no
    /// URL is reported twice, and no URL is asked for after its page was
    /// examined.
    pub proof fn lemma_steps_keep_wf(self, page: PageModel, elapsed_ms: u128, error: CrawlerError)
        requires
            self.wf(),
        ensures
            self.next().wf(),
            self.record(page, elapsed_ms).wf(),
            self.fail(error).wf(),
            urls_of(self.results).no_duplicates(),
            self.next().awaited() matches Some(url) ==> !self.walk.visited.contains(url),
    {
        self.walk.lemma_settle_wf();
        self.walk.lemma_expand_wf(page.links);
        let recorded = self.record(page, elapsed_ms);
        assert(urls_of(recorded.results) =~= recorded.walk.visited);
    }

    /// What was reported stays reported, in its place: a crawl that is
    /// stopped early has reported the beginning of what it would have
    /// reported later.
    pub proof fn lemma_results_only_grow(
        self,
        page: PageModel,
        elapsed_ms: u128,
        error: CrawlerError,
    )
        ensures
            self.next().results == self.results,
            self.fail(error).results == self.results,
            self.results.is_prefix_of(self.record(page, elapsed_ms).results),
    {
        let recorded = self.record(page, elapsed_ms);
        assert(self.results =~= recorded.results.take(self.results.len() as int));
    }

    /// A crawl that is done or has failed stays as it is, whatever comes.
    pub proof fn lemma_end_is_final(self, page: PageModel, elapsed_ms: u128, error: CrawlerError)
        requires
            self.phase() == Phase::Done || self.phase() == Phase::Failed,
        ensures
            self.next().phase() == self.phase(),
            self.next().outcome() == self.outcome(),
            self.record(page, elapsed_ms) == self,
            self.fail(error) == self,
    {
        if self.phase() == Phase::Done {
            self.walk.lemma_settle_twice();
        }
    }
}

/// A crawl in progress: which pages wait, which were examined, what was
/// found in them, and when the page that is awaited was asked for. The
/// caller fetches the page that `next_url` names and hands what was found in
/// it to `record`, or reports with `fail` that it could not;
/// `Crawler::execute` does the three in one step.
pub struct Crawl {
    walk: Traversal<String>,
    results: Vec<CrawlerResult>,
    failure: Option<CrawlerError>,
    asked: Option<Instant>,
}

impl View for Crawl {
    type V = CrawlModel;

    closed spec fn view(&self) -> CrawlModel {
        CrawlModel { walk: self.walk@, results: views(self.results@), failure: self.failure }
    }
}

impl Crawler {
    /// A crawl that is about to start at the crawler's URL.
    pub fn begin(&self) -> (crawl: Crawl)
        ensures
            crawl@ == CrawlModel::begin(self.seed()),
    {
        Crawl::new(self.base_url.clone())
    }

    /// One step of a crawl. What came for the page that was awaited, if
    /// anything came, is taken in: a page is examined and recorded with the
    /// time that has passed since it was asked for, or it fails the crawl
    /// where it cannot be examined; a failure fails the crawl. Then the page
    /// to fetch next is named: `None` where the crawl has failed or no page
    /// is left.
    pub fn execute(&self, crawl: &mut Crawl, arrived: Option<Fetched>) -> (next: Option<String>)
        ensures
            old(crawl)@.executed(self.pattern(), arrived, final(crawl)@),
            match next {
                Some(url) => final(crawl)@.awaited() == Some(url@),
                None => final(crawl)@.awaited() is None,
            },
            old(crawl)@.wf() ==> final(crawl)@.wf(),
    {
        match arrived {
            None => {},
            Some(Fetched::Failure(error)) => {
                crawl.fail(error);
            },
            Some(Fetched::Page { base, body }) => {
                match self.examine(base.as_str(), body.as_str()) {
                    Ok(page) => {
                        let elapsed_ms = crawl.elapsed_ms();
                        crawl.record(page, elapsed_ms);
                    },
                    Err(error) => {
                        crawl.fail(error);
                    },
                }
            },
        }
        crawl.next_url()
    }
}

impl Crawl {
    /// A crawl that is about to start at `seed`.
    pub fn new(seed: String) -> (crawl: Crawl)
        ensures
            crawl@ == CrawlModel::begin(seed@),
    {
        let crawl = Crawl {
            walk: Traversal::new(seed),
            results: Vec::new(),
            failure: None,
            asked: None,
        };
        assert(crawl@.results =~= Seq::empty());
        crawl
    }

    /// Where the crawl stands.
    pub fn phase(&self) -> (phase: Phase)
        ensures
            phase == self@.phase(),
    {
        if self.failure.is_some() {
            Phase::Failed
        } else if self.walk.is_finished() {
            Phase::Done
        } else if self.walk.current().is_none() && self.walk.visited().len() == 0 {
            Phase::Idle
        } else {
            Phase::Running
        }
    }

    /// The URL of the page to fetch now: the one that is awaited already, or
    /// else the oldest URL that waits and whose page was not examined yet.
    /// `None` where the crawl has failed or no such URL is left.
    pub fn next_url(&mut self) -> (url: Option<String>)
        ensures
            final(self)@ == old(self)@.next(),
            match url {
                Some(url) => final(self)@.awaited() == Some(url@),
                None => final(self)@.awaited() is None,
            },
            old(self)@.wf() ==> final(self)@.wf(),
    {
        if self.failure.is_some() {
            None
        } else {
            let url = self.walk.next();
            if url.is_some() && self.asked.is_none() {
                self.asked = Some(now());
            }
            url
        }
    }

    /// The milliseconds that have passed since the page that is awaited was
    /// first asked for; zero where none is awaited. Of the number that the
    /// clock gives for a page that is awaited nothing is promised.
    pub fn elapsed_ms(&self) -> (elapsed: u128)
        ensures
            self@.awaited() is None ==> elapsed == 0,
    {
        if self.failure.is_some() || self.walk.current().is_none() {
            return 0;
        }
        match &self.asked {
            Some(start) => millis_since(start),
            None => 0,
        }
    }

    /// Takes `page` as the page that is awaited, which took `elapsed_ms`
    /// milliseconds to fetch and examine. Returns whether a page was awaited;
    /// where none was, nothing changes.
    pub fn record(&mut self, page: PageReport, elapsed_ms: u128) -> (recorded: bool)
        ensures
            final(self)@ == old(self)@.record(page@, elapsed_ms),
            recorded == (old(self)@.awaited() is Some),
            old(self)@.wf() ==> final(self)@.wf(),
    {
        if self.failure.is_some() {
            return false;
        }
        let url = match self.walk.current() {
            Some(url) => url.clone(),
            None => {
                return false;
            },
        };
        let ghost before = views(self.results@);
        self.results.push(
            CrawlerResult {
                url,
                page_title: page.page_title,
                targets: page.targets,
                elapsed_ms,
            },
        );
        assert(views(self.results@) =~= before.push(self.results@.last()@));
        self.walk.expand(page.links);
        self.asked = None;
        proof {
            assert(urls_of(self@.results) =~= urls_of(before).push(url@));
        }
        true
    }

    /// Ends the crawl for `error`, which kept the page that is awaited from
    /// being had or examined. Returns whether a page was awaited; where none
    /// was, nothing changes.
    pub fn fail(&mut self, error: CrawlerError) -> (failed: bool)
        ensures
            final(self)@ == old(self)@.fail(error),
            failed == (old(self)@.awaited() is Some),
            old(self)@.wf() ==> final(self)@.wf(),
    {
        if self.failure.is_some() || self.walk.current().is_none() {
            false
        } else {
            self.failure = Some(error);
            self.asked = None;
            true
        }
    }

    /// What was reported of the pages that were examined so far, in their
    /// order.
    pub fn results(&self) -> (results: &Vec<CrawlerResult>)
        ensures
            views(results@) == self@.results,
    {
        &self.results
    }

    /// The number of pages that were examined.
    pub fn page_count(&self) -> (count: usize)
        ensures
            count == self@.results.len(),
    {
        self.results.len()
    }

    /// Ends the crawl and hands out the error where it has failed, and else
    /// what was reported of the pages, in the order in which they were
    /// examined.
    pub fn finish(self) -> (outcome: Result<Vec<CrawlerResult>, CrawlerError>)
        ensures
            match outcome {
                Ok(results) => self@.outcome() == Ok::<Seq<ResultModel>, CrawlerError>(
                    views(results@),
                ),
                Err(error) => self@.outcome() == Err::<Seq<ResultModel>, CrawlerError>(error),
            },
    {
        match self.failure {
            Some(error) => Err(error),
            None => Ok(self.results),
        }
    }
}

} // verus!
