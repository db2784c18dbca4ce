use web_crawler::links::{normalize, resolve, resolve_all};

fn kept(url: &str) -> Option<String> {
    Some(String::from(url))
}

#[test]
fn a_link_inside_the_base_is_kept() {
    assert_eq!(resolve("https://example.org/", "https://example.org/b").unwrap(), kept("https://example.org/b"));
    assert_eq!(resolve("https://example.org/a", "https://example.org/a/b").unwrap(), kept("https://example.org/a/b"));
}

#[test]
fn a_link_to_another_host_is_dropped() {
    assert_eq!(resolve("https://example.org/a", "https://other.org/x").unwrap(), None);
    assert_eq!(resolve("https://example.org/", "https://other.org/x").unwrap(), None);
}

#[test]
fn a_link_beside_the_base_is_dropped() {
    assert_eq!(resolve("https://example.org/a", "https://example.org/b").unwrap(), None);
    assert_eq!(resolve("https://example.org/a/", "https://example.org/a").unwrap(), None);
}

#[test]
fn a_link_that_holds_the_base_as_text_is_kept() {
    assert_eq!(
        resolve("https://example.org/", "https://mirror.test/?of=https://example.org/").unwrap(),
        kept("https://mirror.test/?of=https://example.org/")
    );
}

#[test]
fn a_relative_link_is_resolved_against_the_base() {
    assert_eq!(resolve("https://example.org/", "/b").unwrap(), kept("https://example.org/b"));
    assert_eq!(resolve("https://example.org/", "docs/a.html").unwrap(), kept("https://example.org/docs/a.html"));
    assert_eq!(resolve("https://example.org/a/", "b").unwrap(), kept("https://example.org/a/b"));
    assert_eq!(resolve("https://example.org/a/", "../b").unwrap(), None);
    assert_eq!(resolve("https://example.org/a/page", "other").unwrap(), None);
}

#[test]
fn links_that_differ_only_by_fragment_are_the_same_url() {
    let x = resolve("https://example.org/a", "/a#x").unwrap();
    let y = resolve("https://example.org/a", "/a#y").unwrap();
    assert_eq!(x, kept("https://example.org/a"));
    assert_eq!(x, y);
    assert_eq!(
        resolve("https://example.org/", "https://example.org/p?q=1#part").unwrap(),
        kept("https://example.org/p?q=1")
    );
}

#[test]
fn a_link_is_kept_as_the_parser_writes_it() {
    assert_eq!(resolve("https://example.org/", "HTTPS://EXAMPLE.ORG/A").unwrap(), kept("https://example.org/A"));
    assert_eq!(resolve("https://example.org/", "https://example.org").unwrap(), kept("https://example.org/"));
}

#[test]
fn a_link_that_cannot_be_parsed_is_passed_over() {
    assert_eq!(resolve("https://example.org/", "http://[::1").unwrap(), None);
    assert_eq!(resolve("https://example.org/", "https://exa mple.org/").unwrap(), None);
}

#[test]
fn a_relative_link_that_cannot_be_resolved_fails() {
    assert!(resolve("mailto:someone@example.org", "page").is_err());
    assert!(resolve("no base at all", "page").is_err());
}

#[test]
fn an_absolute_link_needs_no_base() {
    assert_eq!(resolve("no base at all", "https://example.org/").unwrap(), None);
    assert_eq!(resolve("", "https://example.org/").unwrap(), kept("https://example.org/"));
}

#[test]
fn normalizing_writes_a_url_as_the_parser_does_and_drops_the_fragment() {
    assert_eq!(normalize("https://example.org").unwrap(), "https://example.org/");
    assert_eq!(normalize("https://example.org/a#frag").unwrap(), "https://example.org/a");
    assert_eq!(normalize("HTTP://Example.ORG:80/x/../y").unwrap(), "http://example.org/y");
}

#[test]
fn normalizing_fails_on_what_is_no_absolute_url() {
    assert!(normalize("/relative").is_err());
    assert!(normalize("not a url").is_err());
    assert!(normalize("").is_err());
    assert!(normalize("http://[::1").is_err());
}

#[test]
fn resolving_all_keeps_the_order_and_the_duplicates() {
    let hrefs = vec![
        String::from("/a/x"),
        String::from("https://other.org/"),
        String::from("/a/y#top"),
        String::from("http://[::1"),
        String::from("/a/x"),
        String::from("/b"),
    ];
    assert_eq!(
        resolve_all("https://example.org/a", &hrefs).unwrap(),
        vec![
            String::from("https://example.org/a/x"),
            String::from("https://example.org/a/y"),
            String::from("https://example.org/a/x"),
        ]
    );
    assert_eq!(resolve_all("https://example.org/a", &Vec::new()).unwrap(), Vec::<String>::new());
}

#[test]
fn resolving_all_fails_where_one_link_fails() {
    let hrefs = vec![String::from("https://example.org/"), String::from("page")];
    assert!(resolve_all("mailto:someone@example.org", &hrefs).is_err());
    let absolute = vec![String::from("https://example.org/")];
    assert!(resolve_all("mailto:someone@example.org", &absolute).is_ok());
}
