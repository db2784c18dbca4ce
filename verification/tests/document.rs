use web_crawler::document::{find_attribute, Document, Node, NodeData};

fn text(s: &str) -> NodeData {
    NodeData::Text(String::from(s))
}

fn element(name: &str, attributes: &[(&str, &str)]) -> NodeData {
    NodeData::Element(
        String::from(name),
        attributes.iter().map(|(k, v)| (String::from(*k), String::from(*v))).collect(),
    )
}

fn node(first_child: Option<usize>, data: NodeData) -> Node {
    Node { first_child, data }
}

#[test]
fn parsing_gives_the_nodes_in_document_order() {
    let doc = Document::parse("<p class=\"x\">hi<!--c--></p>");
    let expected = vec![
        node(Some(1), element("html", &[])),
        node(None, element("head", &[])),
        node(Some(3), element("body", &[])),
        node(Some(4), element("p", &[("class", "x")])),
        node(None, text("hi")),
        node(None, NodeData::Comment(String::from("c"))),
    ];
    assert_eq!(doc.nodes, expected);
}

#[test]
fn parsing_the_same_text_twice_gives_the_same_document() {
    let body = "<html><head><title>T</title></head><body><a href=\"/x\">x</a></body></html>";
    assert_eq!(Document::parse(body), Document::parse(body));
}

#[test]
fn a_document_with_exactly_one_title_has_that_title() {
    let doc = Document::parse("<html><head><title>Hello</title></head><body></body></html>");
    assert_eq!(doc.title(), Some(String::from("Hello")));
}

#[test]
fn a_document_without_title_has_no_title() {
    let doc = Document::parse("<html><head></head><body><p>Hello</p></body></html>");
    assert_eq!(doc.title(), None);
    assert_eq!(Document::parse("").title(), None);
}

#[test]
fn a_document_with_two_titles_has_no_title() {
    let doc = Document::parse(
        "<html><head><title>One</title><title>Two</title></head><body></body></html>",
    );
    assert_eq!(doc.title(), None);
}

#[test]
fn two_titles_give_no_title_even_where_only_one_has_text() {
    let doc = Document {
        nodes: vec![
            node(Some(1), element("title", &[])),
            node(None, text("One")),
            node(None, element("title", &[])),
        ],
    };
    assert_eq!(doc.title(), None);
}

#[test]
fn an_empty_title_is_no_title() {
    let doc = Document::parse("<html><head><title></title></head><body></body></html>");
    assert_eq!(doc.title(), None);
}

#[test]
fn a_title_whose_first_child_is_no_text_is_no_title() {
    let doc = Document {
        nodes: vec![
            node(Some(1), element("title", &[])),
            node(None, NodeData::Comment(String::from("c"))),
            node(None, text("late")),
        ],
    };
    assert_eq!(doc.title(), None);
}

#[test]
fn a_first_child_that_is_no_node_is_no_text() {
    let doc = Document { nodes: vec![node(Some(5), element("title", &[]))] };
    assert_eq!(doc.first_child_text(0), None);
    assert_eq!(doc.first_child_text(1), None);
    assert_eq!(doc.title(), None);
}

#[test]
fn the_first_child_text_is_the_text_of_the_first_child() {
    let doc = Document {
        nodes: vec![
            node(Some(2), element("p", &[])),
            node(None, text("second")),
            node(None, text("first")),
        ],
    };
    assert_eq!(doc.first_child_text(0), Some(&String::from("first")));
    assert_eq!(doc.first_child_text(1), None);
}

#[test]
fn only_elements_called_title_count() {
    let doc = Document {
        nodes: vec![
            node(None, text("title")),
            node(Some(2), element("title", &[])),
            node(None, text("Kept")),
            node(None, element("titles", &[])),
        ],
    };
    assert_eq!(doc.title(), Some(String::from("Kept")));
}

#[test]
fn attribute_values_come_in_document_order() {
    let doc = Document::parse(
        "<a href=\"/one\">1</a><a name=\"n\">none</a><p href=\"/p\">p</p><a href=\"/two\" id=\"b\">2</a><a href=\"/one\">3</a>",
    );
    assert_eq!(
        doc.attribute_values("a", "href"),
        vec![String::from("/one"), String::from("/two"), String::from("/one")]
    );
    assert_eq!(doc.attribute_values("p", "href"), vec![String::from("/p")]);
    assert_eq!(doc.attribute_values("a", "title"), Vec::<String>::new());
}

#[test]
fn the_first_attribute_of_a_name_is_the_one_that_counts() {
    let attributes = vec![
        (String::from("id"), String::from("x")),
        (String::from("href"), String::from("/first")),
        (String::from("href"), String::from("/second")),
    ];
    assert_eq!(find_attribute(&attributes, &String::from("href")), Some(&String::from("/first")));
    assert_eq!(find_attribute(&attributes, &String::from("class")), None);
    assert_eq!(find_attribute(&Vec::new(), &String::from("href")), None);
}

#[test]
fn a_node_tells_its_attribute_only_as_the_element_asked_for() {
    let anchor = node(None, element("a", &[("href", "/x")]));
    let a = String::from("a");
    let p = String::from("p");
    let href = String::from("href");
    assert_eq!(anchor.attribute_of(&a, &href), Some(&String::from("/x")));
    assert_eq!(anchor.attribute_of(&p, &href), None);
    assert_eq!(node(None, text("a")).attribute_of(&a, &href), None);
    assert!(anchor.is_element(&a));
    assert!(!anchor.is_element(&p));
    assert!(!node(None, text("a")).is_element(&a));
}

#[test]
fn payloads_are_texts_comments_and_attribute_values() {
    let doc = Document::parse("<p id=\"i\" class=\"c\">text<!--note--></p>");
    let payloads: Vec<String> = doc.payloads().into_iter().cloned().collect();
    assert_eq!(
        payloads,
        vec![String::from("i"), String::from("c"), String::from("text"), String::from("note")]
    );
}

#[test]
fn an_empty_document_has_no_payloads() {
    let doc = Document { nodes: vec![] };
    assert!(doc.payloads().is_empty());
    assert_eq!(doc.attribute_values("a", "href"), Vec::<String>::new());
}
