use web_crawler::crawler::{
    Crawl, Crawler, CrawlerError, CrawlerResult, Fetched, PageReport, Phase,
};
use web_crawler::document::{Document, Node, NodeData};

const PATTERN: &str = "MBSD\\{[0-9a-zA-Z]+\\}";

fn crawler(seed: &str) -> Crawler {
    Crawler::new(PATTERN, seed).expect("a pattern that compiles and an absolute URL")
}

fn strings(texts: &[&str]) -> Vec<String> {
    texts.iter().map(|t| String::from(*t)).collect()
}

fn page(links: &[&str], title: &str, targets: &[&str]) -> PageReport {
    PageReport { links: strings(links), page_title: String::from(title), targets: strings(targets) }
}

fn transport_error() -> reqwest::Error {
    reqwest::Client::new().get("not a url").build().unwrap_err()
}

/// Fetches from `site`, a list of URLs with the text of their page.
fn fetch(site: &[(&str, &str)], url: &str, asked: &mut Vec<String>) -> Option<String> {
    asked.push(String::from(url));
    site.iter().find(|(at, _)| *at == url).map(|(_, body)| String::from(*body))
}

/// Runs a crawl over `site`; a page that the site lacks ends it.
fn crawl_site(crawler: &Crawler, site: &[(&str, &str)], asked: &mut Vec<String>) -> Result<Vec<CrawlerResult>, CrawlerError> {
    let mut crawl = crawler.begin();
    while let Some(url) = crawl.next_url() {
        match fetch(site, &url, asked) {
            Some(body) => match crawler.examine(&url, &body) {
                Ok(found) => assert!(crawl.record(found, 0)),
                Err(error) => assert!(crawl.fail(error)),
            },
            None => assert!(crawl.fail(CrawlerError::ServerError(transport_error()))),
        }
    }
    crawl.finish()
}

#[test]
fn a_crawler_keeps_its_pattern_and_its_url_as_the_parser_writes_it() {
    let c = crawler("https://example.org");
    assert_eq!(c.target_regex(), PATTERN);
    assert_eq!(c.base_url(), "https://example.org/");
}

#[test]
fn a_crawler_starts_from_its_url_without_the_fragment() {
    assert_eq!(crawler("https://example.org/a/b#part").base_url(), "https://example.org/a/b");
}

#[test]
fn a_pattern_that_does_not_compile_makes_no_crawler() {
    assert!(matches!(Crawler::new("(", "https://example.org/"), Err(CrawlerError::RegexError(_))));
}

#[test]
fn a_url_that_is_not_absolute_makes_no_crawler() {
    assert!(matches!(Crawler::new(PATTERN, "/relative"), Err(CrawlerError::ParseUrl(_))));
    assert!(matches!(Crawler::new(PATTERN, "not a url"), Err(CrawlerError::ParseUrl(_))));
    assert!(matches!(Crawler::new(PATTERN, "http://[::1"), Err(CrawlerError::ParseUrl(_))));
}

#[test]
fn the_pattern_is_checked_before_the_url() {
    assert!(matches!(Crawler::new("(", "not a url"), Err(CrawlerError::RegexError(_))));
}

#[test]
fn every_kind_of_error_has_its_message() {
    assert_eq!(CrawlerError::ClientBuilder(transport_error()).message(), "Failed to build client");
    assert_eq!(
        CrawlerError::RegexError(regex::Error::Syntax(String::from("x"))).message(),
        "Failed to create regex"
    );
    assert_eq!(CrawlerError::SendRequest(transport_error()).message(), "Failed to send a request");
    assert_eq!(CrawlerError::ServerError(transport_error()).message(), "Server returned an error");
    assert_eq!(
        CrawlerError::ResponseBody(transport_error()).message(),
        "Failed to read the response body"
    );
    assert_eq!(CrawlerError::ParseUrl(url::ParseError::EmptyHost).message(), "Failed to parse URL");
}

#[test]
fn the_errors_of_a_new_crawler_have_their_messages() {
    let pattern = Crawler::new("(", "https://example.org/").err().unwrap();
    assert_eq!(pattern.message(), "Failed to create regex");
    let url = Crawler::new(PATTERN, "nowhere").err().unwrap();
    assert_eq!(url.message(), "Failed to parse URL");
}

#[test]
fn links_of_a_page_are_those_that_hold_the_base() {
    let c = crawler("https://example.org/");
    let doc = Document::parse(
        "<a href=\"/a/x\">1</a><a>none</a><a href=\"https://other.org/\">2</a><a href=\"/a/y#top\">3</a><a href=\"/a/x\">4</a><a href=\"/b\">5</a>",
    );
    assert_eq!(
        c.get_links(&doc, "https://example.org/a").unwrap(),
        strings(&["https://example.org/a/x", "https://example.org/a/y", "https://example.org/a/x"])
    );
    assert_eq!(
        c.get_links(&doc, "https://example.org").unwrap(),
        strings(&[
            "https://example.org/a/x",
            "https://example.org/a/y",
            "https://example.org/a/x",
            "https://example.org/b"
        ])
    );
}

#[test]
fn the_base_of_a_page_counts_without_its_fragment() {
    let c = crawler("https://example.org/");
    let doc = Document::parse("<a href=\"/a/x\">1</a>");
    assert_eq!(
        c.get_links(&doc, "https://example.org/a#here").unwrap(),
        strings(&["https://example.org/a/x"])
    );
}

#[test]
fn links_fail_where_the_base_is_no_url_or_a_link_cannot_be_resolved() {
    let c = crawler("https://example.org/");
    let doc = Document::parse("<a href=\"page\">1</a>");
    assert!(matches!(c.get_links(&doc, "not a url"), Err(CrawlerError::ParseUrl(_))));
    assert!(matches!(c.get_links(&doc, "mailto:someone@example.org"), Err(CrawlerError::ParseUrl(_))));
    let empty = Document::parse("");
    assert!(matches!(c.get_links(&empty, "not a url"), Err(CrawlerError::ParseUrl(_))));
    assert_eq!(c.get_links(&empty, "mailto:someone@example.org").unwrap(), Vec::<String>::new());
}

#[test]
fn matched_strings_are_found_in_text_comments_and_attributes() {
    let c = crawler("https://example.org/");
    let doc = Document::parse(
        "<p id=\"MBSD{id}\">MBSD{one} and MBSD{two}<!--MBSD{note}--></p>",
    );
    assert_eq!(
        c.get_matched_strings(&doc),
        strings(&["MBSD{id}", "MBSD{one}", "MBSD{two}", "MBSD{note}"])
    );
    assert_eq!(c.get_matched_strings(&Document::parse("<p>MBSD{}</p>")), Vec::<String>::new());
}

#[test]
fn the_title_of_a_page_needs_exactly_one_title_element() {
    let c = crawler("https://example.org/");
    let one = Document::parse("<html><head><title>Only</title></head></html>");
    let none = Document::parse("<html><head></head></html>");
    let two = Document::parse("<html><head><title>A</title><title>B</title></head></html>");
    assert_eq!(c.get_doc_title(&one), Some(String::from("Only")));
    assert_eq!(c.get_doc_title(&none), None);
    assert_eq!(c.get_doc_title(&two), None);
}

#[test]
fn a_title_in_a_hand_made_document_is_found() {
    let c = crawler("https://example.org/");
    let doc = Document {
        nodes: vec![
            Node { first_child: Some(1), data: NodeData::Element(String::from("title"), vec![]) },
            Node { first_child: None, data: NodeData::Text(String::from("Made")) },
        ],
    };
    assert_eq!(c.get_doc_title(&doc), Some(String::from("Made")));
}

#[test]
fn examining_a_page_gives_links_title_and_matches() {
    let c = crawler("https://example.org/");
    let body = "<html><head><title>Home</title></head><body><a href=\"/in\">in</a><a href=\"https://out.test/\">out</a>MBSD{home}</body></html>";
    assert_eq!(
        c.examine("https://example.org/", body).unwrap(),
        page(&["https://example.org/in"], "Home", &["MBSD{home}"])
    );
}

#[test]
fn a_page_without_one_title_is_reported_with_an_empty_title() {
    let c = crawler("https://example.org/");
    let found = c.examine("https://example.org/", "<p>MBSD{x}</p>").unwrap();
    assert_eq!(found, page(&[], "", &["MBSD{x}"]));
    let two = c
        .examine("https://example.org/", "<head><title>A</title><title>B</title></head>")
        .unwrap();
    assert_eq!(two.page_title, "");
}

#[test]
fn examining_fails_where_a_link_cannot_be_resolved() {
    let c = crawler("https://example.org/");
    let failed = c.examine("mailto:someone@example.org", "<a href=\"page\">x</a> MBSD{lost}");
    assert!(matches!(failed, Err(CrawlerError::ParseUrl(_))));
    assert!(matches!(c.examine("nowhere", ""), Err(CrawlerError::ParseUrl(_))));
}

#[test]
fn a_crawl_is_idle_then_running_then_done() {
    let c = crawler("https://example.org/");
    let mut crawl = c.begin();
    assert_eq!(crawl.phase(), Phase::Idle);
    assert_eq!(crawl.page_count(), 0);
    assert_eq!(crawl.next_url(), Some(String::from("https://example.org/")));
    assert_eq!(crawl.phase(), Phase::Running);
    assert!(crawl.record(page(&["https://example.org/a"], "Home", &[]), 12));
    assert_eq!(crawl.phase(), Phase::Running);
    assert_eq!(crawl.next_url(), Some(String::from("https://example.org/a")));
    assert!(crawl.record(page(&["https://example.org/"], "A", &["MBSD{a}"]), 7));
    assert_eq!(crawl.phase(), Phase::Done);
    assert_eq!(crawl.next_url(), None);
    assert_eq!(crawl.phase(), Phase::Done);
    assert_eq!(crawl.page_count(), 2);
    let results = crawl.finish().unwrap();
    assert_eq!(
        results,
        vec![
            CrawlerResult {
                url: String::from("https://example.org/"),
                page_title: String::from("Home"),
                targets: vec![],
                elapsed_ms: 12,
            },
            CrawlerResult {
                url: String::from("https://example.org/a"),
                page_title: String::from("A"),
                targets: strings(&["MBSD{a}"]),
                elapsed_ms: 7,
            },
        ]
    );
}

#[test]
fn a_page_is_reported_also_where_nothing_matched() {
    let mut crawl = Crawl::new(String::from("https://example.org/"));
    crawl.next_url();
    assert!(crawl.record(page(&[], "", &[]), 1));
    assert_eq!(crawl.results().len(), 1);
    assert_eq!(crawl.results()[0].targets, Vec::<String>::new());
}

#[test]
fn the_same_url_is_asked_for_until_its_page_is_recorded() {
    let mut crawl = Crawl::new(String::from("https://example.org/"));
    assert_eq!(crawl.next_url(), Some(String::from("https://example.org/")));
    assert_eq!(crawl.next_url(), Some(String::from("https://example.org/")));
    assert!(crawl.record(page(&["https://example.org/a", "https://example.org/b"], "", &[]), 0));
    assert_eq!(crawl.next_url(), Some(String::from("https://example.org/a")));
    assert_eq!(crawl.next_url(), Some(String::from("https://example.org/a")));
}

#[test]
fn a_page_that_was_not_asked_for_is_not_recorded() {
    let mut crawl = Crawl::new(String::from("https://example.org/"));
    assert!(!crawl.record(page(&["https://example.org/a"], "early", &[]), 3));
    assert_eq!(crawl.phase(), Phase::Idle);
    assert_eq!(crawl.page_count(), 0);
    assert_eq!(crawl.next_url(), Some(String::from("https://example.org/")));
    assert!(crawl.record(page(&[], "first", &[]), 3));
    assert!(!crawl.record(page(&[], "again", &[]), 3));
    assert_eq!(crawl.page_count(), 1);
    assert_eq!(crawl.results()[0].page_title, "first");
}

#[test]
fn no_url_is_examined_twice() {
    let mut crawl = Crawl::new(String::from("s"));
    let mut asked = Vec::new();
    while let Some(url) = crawl.next_url() {
        asked.push(url);
        crawl.record(page(&["s", "a", "b", "a", "s"], "", &[]), 0);
    }
    assert_eq!(asked, strings(&["s", "a", "b"]));
    let urls: Vec<String> = crawl.finish().unwrap().into_iter().map(|r| r.url).collect();
    assert_eq!(urls, strings(&["s", "a", "b"]));
}

#[test]
fn pages_are_visited_breadth_first() {
    let mut crawl = Crawl::new(String::from("0"));
    let mut asked = Vec::new();
    while let Some(url) = crawl.next_url() {
        let links: &[&str] = match url.as_str() {
            "0" => &["1", "2"],
            "1" => &["0", "3"],
            "2" => &["3"],
            _ => &["2", "0"],
        };
        asked.push(url);
        crawl.record(page(links, "", &[]), 0);
    }
    assert_eq!(asked, strings(&["0", "1", "2", "3"]));
}

#[test]
fn a_failure_ends_the_crawl_without_results() {
    let mut crawl = Crawl::new(String::from("https://example.org/"));
    crawl.next_url();
    assert!(crawl.record(page(&["https://example.org/a"], "Home", &["MBSD{x}"]), 5));
    assert_eq!(crawl.next_url(), Some(String::from("https://example.org/a")));
    assert!(crawl.fail(CrawlerError::SendRequest(transport_error())));
    assert_eq!(crawl.phase(), Phase::Failed);
    assert_eq!(crawl.next_url(), None);
    assert!(!crawl.record(page(&[], "late", &[]), 1));
    assert!(!crawl.fail(CrawlerError::ParseUrl(url::ParseError::EmptyHost)));
    assert_eq!(crawl.phase(), Phase::Failed);
    assert!(matches!(crawl.finish(), Err(CrawlerError::SendRequest(_))));
}

#[test]
fn a_crawl_fails_only_while_a_page_is_awaited() {
    let mut crawl = Crawl::new(String::from("https://example.org/"));
    assert!(!crawl.fail(CrawlerError::ParseUrl(url::ParseError::EmptyHost)));
    assert_eq!(crawl.phase(), Phase::Idle);
    crawl.next_url();
    crawl.record(page(&[], "", &[]), 0);
    assert_eq!(crawl.phase(), Phase::Done);
    assert!(!crawl.fail(CrawlerError::ParseUrl(url::ParseError::EmptyHost)));
    assert_eq!(crawl.phase(), Phase::Done);
    assert_eq!(crawl.finish().unwrap().len(), 1);
}

#[test]
fn a_crawl_that_is_stopped_early_hands_out_what_it_has() {
    let mut crawl = Crawl::new(String::from("0"));
    let limit = 2;
    while crawl.page_count() < limit {
        match crawl.next_url() {
            Some(_) => crawl.record(page(&["1", "2", "3"], "", &[]), 0),
            None => break,
        };
    }
    assert_eq!(crawl.phase(), Phase::Running);
    let urls: Vec<String> = crawl.finish().unwrap().into_iter().map(|r| r.url).collect();
    assert_eq!(urls, strings(&["0", "1"]));
}

#[test]
fn a_crawl_visits_the_seed_and_the_internal_page_only() {
    let site = [
        (
            "https://site.test/",
            "<html><head><title>Seed</title></head><body><a href=\"/about\">About</a><a href=\"https://elsewhere.test/\">Out</a>MBSD{seed}</body></html>",
        ),
        (
            "https://site.test/about",
            "<html><head><title>About</title></head><body><a href=\"/\">Home</a><!-- MBSD{about} --></body></html>",
        ),
        ("https://elsewhere.test/", "<title>Elsewhere</title>MBSD{never}"),
    ];
    let c = crawler("https://site.test");
    let mut asked = Vec::new();
    let results = crawl_site(&c, &site, &mut asked).unwrap();
    assert_eq!(asked, strings(&["https://site.test/", "https://site.test/about"]));
    assert_eq!(
        results,
        vec![
            CrawlerResult {
                url: String::from("https://site.test/"),
                page_title: String::from("Seed"),
                targets: strings(&["MBSD{seed}"]),
                elapsed_ms: 0,
            },
            CrawlerResult {
                url: String::from("https://site.test/about"),
                page_title: String::from("About"),
                targets: strings(&["MBSD{about}"]),
                elapsed_ms: 0,
            },
        ]
    );
}

#[test]
fn a_crawl_follows_links_that_differ_by_fragment_once() {
    let site = [
        (
            "https://site.test/",
            "<a href=\"/page#one\">1</a><a href=\"/page#two\">2</a><a href=\"/page\">3</a>",
        ),
        ("https://site.test/page", "<a href=\"#top\">top</a>"),
    ];
    let c = crawler("https://site.test/");
    let mut asked = Vec::new();
    let results = crawl_site(&c, &site, &mut asked).unwrap();
    assert_eq!(asked, strings(&["https://site.test/", "https://site.test/page"]));
    assert_eq!(results.len(), 2);
}

#[test]
fn a_page_that_cannot_be_had_fails_the_whole_crawl() {
    let site = [("https://site.test/", "<a href=\"/gone\">gone</a>MBSD{found}")];
    let c = crawler("https://site.test/");
    let mut asked = Vec::new();
    let outcome = crawl_site(&c, &site, &mut asked);
    assert_eq!(asked, strings(&["https://site.test/", "https://site.test/gone"]));
    assert!(matches!(outcome, Err(CrawlerError::ServerError(_))));
}

/// Runs a crawl over `site` step by step; a page that the site lacks ends it.
fn execute_on_site(
    crawler: &Crawler,
    site: &[(&str, &str)],
    asked: &mut Vec<String>,
) -> (Crawl, Vec<Phase>) {
    let mut crawl = crawler.begin();
    let mut phases = vec![crawl.phase()];
    let mut arrived = None;
    while let Some(url) = crawler.execute(&mut crawl, arrived.take()) {
        phases.push(crawl.phase());
        arrived = Some(match fetch(site, &url, asked) {
            Some(body) => Fetched::Page { base: url, body },
            None => Fetched::Failure(CrawlerError::ServerError(transport_error())),
        });
    }
    phases.push(crawl.phase());
    (crawl, phases)
}

#[test]
fn executing_step_by_step_crawls_the_site() {
    let site = [
        (
            "https://site.test/",
            "<title>Seed</title><a href=\"/about\">About</a><a href=\"https://elsewhere.test/\">Out</a>MBSD{seed}",
        ),
        ("https://site.test/about", "<title>About</title><a href=\"/\">Home</a>MBSD{a}MBSD{b}"),
        ("https://elsewhere.test/", "<title>Elsewhere</title>MBSD{never}"),
    ];
    let c = crawler("https://site.test/");
    let mut asked = Vec::new();
    let (crawl, phases) = execute_on_site(&c, &site, &mut asked);
    assert_eq!(asked, strings(&["https://site.test/", "https://site.test/about"]));
    assert_eq!(phases, vec![Phase::Idle, Phase::Running, Phase::Running, Phase::Done]);
    let results = crawl.finish().unwrap();
    assert_eq!(results.len(), 2);
    assert_eq!(results[0].url, "https://site.test/");
    assert_eq!(results[0].page_title, "Seed");
    assert_eq!(results[0].targets, strings(&["MBSD{seed}"]));
    assert_eq!(results[1].url, "https://site.test/about");
    assert_eq!(results[1].page_title, "About");
    assert_eq!(results[1].targets, strings(&["MBSD{a}", "MBSD{b}"]));
    assert!(results.iter().all(|r| r.elapsed_ms < 20_000));
}

#[test]
fn executing_fails_the_crawl_on_the_first_page_that_cannot_be_had() {
    let site = [("https://site.test/", "<a href=\"/gone\">gone</a><a href=\"/also\">also</a>MBSD{x}")];
    let c = crawler("https://site.test/");
    let mut asked = Vec::new();
    let (crawl, phases) = execute_on_site(&c, &site, &mut asked);
    assert_eq!(asked, strings(&["https://site.test/", "https://site.test/gone"]));
    assert_eq!(phases, vec![Phase::Idle, Phase::Running, Phase::Running, Phase::Failed]);
    assert!(matches!(crawl.finish(), Err(CrawlerError::ServerError(_))));
}

#[test]
fn executing_fails_the_crawl_on_a_page_that_cannot_be_examined() {
    let c = crawler("https://site.test/");
    let mut crawl = c.begin();
    assert_eq!(c.execute(&mut crawl, None), Some(String::from("https://site.test/")));
    let page = Fetched::Page {
        base: String::from("mailto:someone@site.test"),
        body: String::from("<a href=\"page\">x</a>"),
    };
    assert_eq!(c.execute(&mut crawl, Some(page)), None);
    assert_eq!(crawl.phase(), Phase::Failed);
    assert!(matches!(crawl.finish(), Err(CrawlerError::ParseUrl(_))));
}

#[test]
fn executing_without_news_asks_for_the_same_page_again() {
    let c = crawler("https://site.test/");
    let mut crawl = c.begin();
    assert_eq!(c.execute(&mut crawl, None), Some(String::from("https://site.test/")));
    assert_eq!(c.execute(&mut crawl, None), Some(String::from("https://site.test/")));
    assert_eq!(crawl.page_count(), 0);
}

#[test]
fn links_are_resolved_against_the_url_that_answered() {
    let c = crawler("https://site.test/");
    let mut crawl = c.begin();
    c.execute(&mut crawl, None);
    let page = Fetched::Page {
        base: String::from("https://site.test/moved/"),
        body: String::from("<a href=\"next\">next</a><a href=\"/other\">other</a>"),
    };
    assert_eq!(c.execute(&mut crawl, Some(page)), Some(String::from("https://site.test/moved/next")));
    assert_eq!(crawl.results()[0].url, "https://site.test/");
}

#[test]
fn the_time_of_a_page_is_counted_from_when_it_was_asked_for() {
    let mut crawl = Crawl::new(String::from("https://site.test/"));
    assert_eq!(crawl.elapsed_ms(), 0);
    crawl.next_url();
    let start = std::time::Instant::now();
    while start.elapsed().as_millis() < 30 {}
    let waited = crawl.elapsed_ms();
    assert!(waited >= 30 && waited < 20_000);
    crawl.record(page(&[], "", &[]), waited);
    assert_eq!(crawl.elapsed_ms(), 0);
    assert_eq!(crawl.results()[0].elapsed_ms, waited);
}
