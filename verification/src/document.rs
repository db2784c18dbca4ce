use crate::views::views;
use select::node::Data;
use vstd::prelude::*;

verus! {

/// What a node of a document holds, as text.
pub enum Content {
    /// A run of text.
    Text(Seq<char>),
    /// A comment.
    Comment(Seq<char>),
    /// An element: its name, and its attributes as pairs of name and value.
    Element(Seq<char>, Seq<(Seq<char>, Seq<char>)>),
}

/// A node of a document, as text.
pub struct NodeModel {
    /// The place of the node's first child among the nodes of the document.
    pub first_child: Option<usize>,
    /// What the node holds.
    pub content: Content,
}

/// What a node of a document holds.
#[derive(Debug, PartialEq, Eq)]
pub enum NodeData {
    /// A run of text.
    Text(String),
    /// A comment.
    Comment(String),
    /// An element: its name, and its attributes as pairs of name and value.
    Element(String, Vec<(String, String)>),
}

impl View for NodeData {
    type V = Content;

    open spec fn view(&self) -> Content {
        match self {
            NodeData::Text(text) => Content::Text(text@),
            NodeData::Comment(text) => Content::Comment(text@),
            NodeData::Element(name, attributes) => Content::Element(name@, views(attributes@)),
        }
    }
}

/// A node of a document.
#[derive(Debug, PartialEq, Eq)]
pub struct Node {
    /// The place of the node's first child among the nodes of the document.
    pub first_child: Option<usize>,
    /// What the node holds.
    pub data: NodeData,
}

impl View for Node {
    type V = NodeModel;

    open spec fn view(&self) -> NodeModel {
        NodeModel { first_child: self.first_child, content: self.data@ }
    }
}

/// A parsed page: its nodes in document order.
#[derive(Debug, PartialEq, Eq)]
pub struct Document {
    /// The nodes, each before its children.
    pub nodes: Vec<Node>,
}

impl View for Document {
    type V = Seq<NodeModel>;

    open spec fn view(&self) -> Seq<NodeModel> {
        views(self.nodes@)
    }
}

/// The value of the first attribute called `name` among `attributes`.
pub open spec fn attribute(attributes: Seq<(Seq<char>, Seq<char>)>, name: Seq<char>) -> Option<
    Seq<char>,
>
    decreases attributes.len(),
{
    if attributes.len() == 0 {
        None
    } else if attributes[0].0 == name {
        Some(attributes[0].1)
    } else {
        attribute(attributes.drop_first(), name)
    }
}

/// Whether `node` is an element called `tag`.
pub open spec fn is_element(node: NodeModel, tag: Seq<char>) -> bool {
    node.content matches Content::Element(name, _) && name == tag
}

/// The value of the attribute `name` of `node`, where `node` is an element
/// called `tag` that has one.
pub open spec fn element_attribute(node: NodeModel, tag: Seq<char>, name: Seq<char>) -> Option<
    Seq<char>,
> {
    match node.content {
        Content::Element(node_name, attributes) => if node_name == tag {
            attribute(attributes, name)
        } else {
            None
        },
        _ => None,
    }
}

/// The values of the attribute `name` of the elements called `tag` that have
/// one, in document order.
pub open spec fn attribute_values(doc: Seq<NodeModel>, tag: Seq<char>, name: Seq<char>) -> Seq<
    Seq<char>,
> {
    doc.filter_map(|node: NodeModel| element_attribute(node, tag, name))
}

/// The text that is the first child of `node`, where that child is text.
pub open spec fn first_child_text(doc: Seq<NodeModel>, node: NodeModel) -> Option<Seq<char>> {
    match node.first_child {
        Some(child) => if child < doc.len() {
            match doc[child as int].content {
                Content::Text(text) => Some(text),
                _ => None,
            }
        } else {
            None
        },
        None => None,
    }
}

/// The elements of `doc` that are called `tag`, in document order.
pub open spec fn elements(doc: Seq<NodeModel>, tag: Seq<char>) -> Seq<NodeModel> {
    doc.filter(|node: NodeModel| is_element(node, tag))
}

/// The title of `doc`: where exactly one element is called `title` and its
/// first child is text, that text.
pub open spec fn title(doc: Seq<NodeModel>) -> Option<Seq<char>> {
    let titles = elements(doc, "title"@);
    if titles.len() == 1 {
        first_child_text(doc, titles[0])
    } else {
        None
    }
}

/// A page has a title only where exactly one of its elements is called
/// `title`, and the title is then the text that is this element's first child.
pub proof fn lemma_title_needs_one_element(doc: Seq<NodeModel>)
    ensures
        elements(doc, "title"@).len() != 1 ==> title(doc) is None,
        title(doc) is Some ==> title(doc) == first_child_text(doc, elements(doc, "title"@)[0]),
{
}

/// The texts that `node` carries: its text, its comment, or the values of its
/// attributes in their order.
pub open spec fn payloads_of(node: NodeModel) -> Seq<Seq<char>> {
    match node.content {
        Content::Text(text) => seq![text],
        Content::Comment(text) => seq![text],
        Content::Element(_, attributes) => attributes.map_values(
            |pair: (Seq<char>, Seq<char>)| pair.1,
        ),
    }
}

/// The texts that the nodes of `doc` carry, in document order.
pub open spec fn payloads(doc: Seq<NodeModel>) -> Seq<Seq<char>> {
    doc.flat_map(|node: NodeModel| payloads_of(node))
}

/// The nodes that the HTML parser makes of the page text `body`, in document
/// order: what `select::document::Document::from` returns for it, each node
/// with the place of its first child, its kind, its text or its local name,
/// and its attributes as local name and value.
pub uninterp spec fn html_nodes(body: Seq<char>) -> Seq<NodeModel>;

/// Parses `body` with `select::document::Document::from` and hands out the
/// nodes of the result in their order. Of each node it keeps `first_child`
/// and, of `data`, the text of a text or a comment, and for an element the
/// local name and the pairs of an attribute's local name and value. The
/// contract claims only that the nodes are those that the parser makes of
/// this text, the same for the same text.
#[verifier::external_body]
fn parse_nodes(body: &str) -> (nodes: Vec<Node>)
    ensures
        views(nodes@) == html_nodes(body@),
{
    let parsed = select::document::Document::from(body);
    parsed.nodes.into_iter().map(|raw| Node {
        first_child: raw.first_child,
        data: match raw.data {
            Data::Text(text) => NodeData::Text(text.to_string()),
            Data::Comment(text) => NodeData::Comment(text.to_string()),
            Data::Element(name, attributes) => NodeData::Element(
                name.local.to_string(),
                attributes.into_iter().map(|(k, v)| (k.local.to_string(), v.to_string())).collect(),
            ),
        },
    }).collect()
}

/// The value of the first attribute called `name` among `attributes`.
pub fn find_attribute<'a>(attributes: &'a Vec<(String, String)>, name: &String) -> (value: Option<
    &'a String,
>)
    ensures
        match value {
            Some(value) => attribute(views(attributes@), name@) == Some(value@),
            None => attribute(views(attributes@), name@) is None,
        },
{
    let mut i: usize = 0;
    assert(views(attributes@).skip(0) =~= views(attributes@));
    while i < attributes.len()
        invariant
            i <= attributes.len(),
            attribute(views(attributes@), name@) == attribute(
                views(attributes@).skip(i as int),
                name@,
            ),
        decreases attributes.len() - i,
    {
        let ghost rest = views(attributes@).skip(i as int);
        assert(rest.drop_first() =~= views(attributes@).skip(i + 1));
        if attributes[i].0 == *name {
            return Some(&attributes[i].1);
        }
        i += 1;
    }
    None
}

impl Node {
    /// The value of the first attribute called `name`, where the node is an
    /// element called `tag` that has one.
    pub fn attribute_of(&self, tag: &String, name: &String) -> (value: Option<&String>)
        ensures
            match value {
                Some(value) => element_attribute(self@, tag@, name@) == Some(value@),
                None => element_attribute(self@, tag@, name@) is None,
            },
    {
        match &self.data {
            NodeData::Element(node_name, attributes) => {
                if *node_name == *tag {
                    find_attribute(attributes, name)
                } else {
                    None
                }
            },
            _ => None,
        }
    }

    /// Whether the node is an element called `tag`.
    pub fn is_element(&self, tag: &String) -> (b: bool)
        ensures
            b == is_element(self@, tag@),
    {
        match &self.data {
            NodeData::Element(node_name, _) => *node_name == *tag,
            _ => false,
        }
    }
}

impl Document {
    /// The document that the HTML parser makes of the page text `body`.
    pub fn parse(body: &str) -> (doc: Document)
        ensures
            doc@ == html_nodes(body@),
    {
        Document { nodes: parse_nodes(body) }
    }

    /// The values of the attribute `name` of the elements called `tag` that
    /// have one, in document order.
    pub fn attribute_values(&self, tag: &str, name: &str) -> (values: Vec<String>)
        ensures
            views(values@) == attribute_values(self@, tag@, name@),
    {
        let tag: String = tag.to_owned();
        let name: String = name.to_owned();
        let ghost pick = |node: NodeModel| element_attribute(node, tag@, name@);
        let mut values: Vec<String> = Vec::new();
        let mut i: usize = 0;
        while i < self.nodes.len()
            invariant
                i <= self.nodes.len(),
                pick == (|node: NodeModel| element_attribute(node, tag@, name@)),
                views(values@) == self@.take(i as int).filter_map(pick),
            decreases self.nodes.len() - i,
        {
            proof {
                self@.lemma_filter_map_take_succ(pick, i as int);
            }
            match self.nodes[i].attribute_of(&tag, &name) {
                Some(value) => {
                    values.push(value.clone());
                },
                None => {},
            }
            i += 1;
        }
        assert(self@.take(self.nodes.len() as int) =~= self@);
        values
    }

    /// The text that is the first child of node `at`, where `at` is a node
    /// and that child is text.
    pub fn first_child_text(&self, at: usize) -> (text: Option<&String>)
        ensures
            match text {
                Some(text) => at < self@.len() && first_child_text(self@, self@[at as int])
                    == Some(text@),
                None => at < self@.len() ==> first_child_text(self@, self@[at as int]) is None,
            },
    {
        if at >= self.nodes.len() {
            return None;
        }
        match self.nodes[at].first_child {
            Some(child) => {
                if child < self.nodes.len() {
                    match &self.nodes[child].data {
                        NodeData::Text(text) => Some(text),
                        _ => None,
                    }
                } else {
                    None
                }
            },
            None => None,
        }
    }

    /// The title of the page: where exactly one element is called `title` and
    /// its first child is text, that text.
    pub fn title(&self) -> (text: Option<String>)
        ensures
            match text {
                Some(text) => title(self@) == Some(text@),
                None => title(self@) is None,
            },
    {
        let tag: String = "title".to_owned();
        let ghost named = |node: NodeModel| is_element(node, "title"@);
        let mut count: usize = 0;
        let mut first: usize = 0;
        let mut i: usize = 0;
        while i < self.nodes.len()
            invariant
                i <= self.nodes.len(),
                tag@ == "title"@,
                named == (|node: NodeModel| is_element(node, "title"@)),
                count == self@.take(i as int).filter(named).len(),
                count <= i,
                count > 0 ==> first < i && self@.take(i as int).filter(named)[0]
                    == self@[first as int],
            decreases self.nodes.len() - i,
        {
            proof {
                let seen = self@.take(i as int);
                assert(self@.take(i + 1) =~= seen.push(self@[i as int]));
                seen.lemma_filter_push(self@[i as int], named);
            }
            if self.nodes[i].is_element(&tag) {
                if count == 0 {
                    first = i;
                }
                count += 1;
            }
            i += 1;
        }
        assert(self@.take(self.nodes.len() as int) =~= self@);
        if count == 1 {
            match self.first_child_text(first) {
                Some(text) => Some(text.clone()),
                None => None,
            }
        } else {
            None
        }
    }

    /// The texts that the nodes carry, in document order.
    pub fn payloads(&self) -> (texts: Vec<&String>)
        ensures
            views(texts@) == payloads(self@),
    {
        let ghost carried = |node: NodeModel| payloads_of(node);
        let mut texts: Vec<&String> = Vec::new();
        let mut i: usize = 0;
        while i < self.nodes.len()
            invariant
                i <= self.nodes.len(),
                carried == (|node: NodeModel| payloads_of(node)),
                views(texts@) == self@.take(i as int).flat_map(carried),
            decreases self.nodes.len() - i,
        {
            proof {
                self@.lemma_flat_map_take_append(carried, i as int);
            }
            let ghost before = views(texts@);
            match &self.nodes[i].data {
                NodeData::Text(text) => {
                    texts.push(text);
                },
                NodeData::Comment(text) => {
                    texts.push(text);
                },
                NodeData::Element(_, attributes) => {
                    let ghost values = views(attributes@).map_values(
                        |pair: (Seq<char>, Seq<char>)| pair.1,
                    );
                    let mut j: usize = 0;
                    while j < attributes.len()
                        invariant
                            j <= attributes.len(),
                            values == views(attributes@).map_values(
                                |pair: (Seq<char>, Seq<char>)| pair.1,
                            ),
                            views(texts@) == before + values.take(j as int),
                        decreases attributes.len() - j,
                    {
                        let ghost so_far = views(texts@);
                        texts.push(&attributes[j].1);
                        assert(views(texts@) =~= so_far.push(values[j as int]));
                        j += 1;
                    }
                },
            }
            i += 1;
        }
        assert(self@.take(self.nodes.len() as int) =~= self@);
        texts
    }
}

} // verus!
