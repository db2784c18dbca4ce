use web_crawler::document::Document;
use web_crawler::matcher::{check_pattern, find_in_all, find_in_document};

const PATTERN: &str = "MBSD\\{[0-9a-zA-Z]+\\}";

fn found(texts: &[&str]) -> Option<Vec<String>> {
    Some(texts.iter().map(|t| String::from(*t)).collect())
}

#[test]
fn both_occurrences_in_a_text_are_returned_in_order() {
    let text = String::from("first MBSD{abc} then MBSD{123} and no more");
    assert_eq!(find_in_all(PATTERN, &vec![&text]), found(&["MBSD{abc}", "MBSD{123}"]));
}

#[test]
fn matches_follow_the_order_of_the_texts() {
    let a = String::from("MBSD{b}MBSD{a}");
    let b = String::from("nothing here");
    let c = String::from("MBSD{c}");
    assert_eq!(find_in_all(PATTERN, &vec![&a, &b, &c]), found(&["MBSD{b}", "MBSD{a}", "MBSD{c}"]));
    assert_eq!(find_in_all(PATTERN, &vec![&c, &a]), found(&["MBSD{c}", "MBSD{b}", "MBSD{a}"]));
}

#[test]
fn matches_do_not_overlap() {
    let four = String::from("aaaa");
    let three = String::from("aaa");
    assert_eq!(find_in_all("aa", &vec![&four]), found(&["aa", "aa"]));
    assert_eq!(find_in_all("aa", &vec![&three]), found(&["aa"]));
}

#[test]
fn no_text_gives_no_match() {
    assert_eq!(find_in_all(PATTERN, &Vec::new()), found(&[]));
    let empty = String::new();
    assert_eq!(find_in_all(PATTERN, &vec![&empty]), found(&[]));
}

#[test]
fn a_pattern_that_does_not_compile_is_refused() {
    assert!(check_pattern("(").is_err());
    assert!(check_pattern("[a-").is_err());
    assert!(check_pattern(PATTERN).is_ok());
    assert!(check_pattern("").is_ok());
    let text = String::from("(");
    assert_eq!(find_in_all("(", &vec![&text]), None);
    assert_eq!(find_in_all("(", &Vec::new()), None);
}

#[test]
fn matches_are_found_in_text_comments_and_attribute_values() {
    let doc = Document::parse(
        "<p title=\"MBSD{attr}\" class=\"plain\">MBSD{text}<!-- MBSD{comment} --></p><i>MBSD{last}</i>",
    );
    assert_eq!(
        find_in_document(PATTERN, &doc),
        found(&["MBSD{attr}", "MBSD{text}", "MBSD{comment}", "MBSD{last}"])
    );
}

#[test]
fn element_names_and_attribute_names_are_not_searched() {
    let doc = Document::parse("<section data-section=\"x\">y</section>");
    assert_eq!(find_in_document("section", &doc), found(&[]));
    assert_eq!(find_in_document("x|y", &doc), found(&["x", "y"]));
}

#[test]
fn a_match_does_not_span_two_nodes() {
    let doc = Document::parse("<p>MBSD{ab<b>cd}</b></p>");
    assert_eq!(find_in_document(PATTERN, &doc), found(&[]));
}
