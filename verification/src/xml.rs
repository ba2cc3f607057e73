//! Parsed XML: the nodes of a document in document order.
//!
//! A node's subtree is the stretch of nodes that starts with the node itself, so
//! a position and an end describe it.

use roxmltree::{NodeType, ParsingOptions};
use vstd::prelude::*;
use crate::text::{push_text, same, text_opt};

verus! {

#[derive(Debug)]
pub struct Attribute {
    /// Namespace of the name, when it has one.
    pub namespace: Option<String>,
    /// Name without a prefix.
    pub name: String,
    pub value: String,
}

#[verifier::ext_equal]
pub struct AttributeView {
    pub namespace: Option<Seq<char>>,
    pub name: Seq<char>,
    pub value: Seq<char>,
}

impl View for Attribute {
    type V = AttributeView;

    open spec fn view(&self) -> AttributeView {
        AttributeView {
            namespace: text_opt(self.namespace),
            name: self.name@,
            value: self.value@,
        }
    }
}

#[derive(Debug, Clone, Copy, PartialEq, Eq, Structural)]
pub enum NodeKind {
    Element,
    Text,
    /// The document itself, a comment or a processing instruction.
    Other,
}

#[derive(Debug)]
pub struct Node {
    pub kind: NodeKind,
    /// Name of an element, without a prefix.
    pub name: String,
    /// What a text node holds.
    pub text: String,
    pub attributes: Vec<Attribute>,
    /// Nodes in the subtree, this one among them.
    pub size: usize,
}

#[verifier::ext_equal]
pub struct NodeView {
    pub kind: NodeKind,
    pub name: Seq<char>,
    pub text: Seq<char>,
    pub attributes: Seq<AttributeView>,
    pub size: usize,
}

impl View for Node {
    type V = NodeView;

    open spec fn view(&self) -> NodeView {
        NodeView {
            kind: self.kind,
            name: self.name@,
            text: self.text@,
            attributes: self.attributes@.map_values(|a: Attribute| a@),
            size: self.size,
        }
    }
}

/// The views of a sequence of nodes.
pub open spec fn node_views(s: Seq<Node>) -> Seq<NodeView> {
    s.map_values(|n: Node| n@)
}

/// The nodes of a document, or what is wrong with it.
pub uninterp spec fn parsed_xml(xml: Seq<char>, allow_dtd: bool) -> Result<Seq<NodeView>, Seq<char>>;

pub open spec fn nodes_result(r: Result<Vec<Node>, String>) -> Result<Seq<NodeView>, Seq<char>> {
    match r {
        Ok(nodes) => Ok(node_views(nodes@)),
        Err(message) => Err(message@),
    }
}

/// `roxmltree::Document::parse_with_options`, with the nodes taken over one by
/// one in document order. Claims that the nodes, or the message of the error,
/// depend on the text and on whether a DTD is allowed, and on nothing else.
#[verifier::external_body]
fn parse_nodes(xml: &str, allow_dtd: bool) -> (r: Result<Vec<Node>, String>)
    ensures
        nodes_result(r) == parsed_xml(xml@, allow_dtd),
{
    let options = ParsingOptions { allow_dtd, ..Default::default() };
    let doc = roxmltree::Document::parse_with_options(xml, options).map_err(|e| e.to_string())?;
    Ok(doc.descendants().map(|n| Node {
        kind: match n.node_type() {
            NodeType::Element => NodeKind::Element,
            NodeType::Text => NodeKind::Text,
            _ => NodeKind::Other },
        name: n.tag_name().name().to_string(), text: n.text().unwrap_or_default().to_string(),
        attributes: n.attributes().map(|a| Attribute {
            namespace: a.namespace().map(str::to_string),
            name: a.name().to_string(),
            value: a.value().to_string() }).collect(),
        size: n.descendants().count() }).collect())
}

/// A parsed document.
#[derive(Debug)]
pub struct Document {
    pub nodes: Vec<Node>,
}

impl View for Document {
    type V = Seq<NodeView>;

    open spec fn view(&self) -> Seq<NodeView> {
        node_views(self.nodes@)
    }
}

/// Where the subtree of the node at `i` ends, within the first `limit` nodes.
pub open spec fn subtree_end(d: Seq<NodeView>, i: int, limit: int) -> int {
    if d[i].size < 1 {
        i + 1
    } else if i + d[i].size > limit {
        limit
    } else {
        i + d[i].size
    }
}

/// The value of the first attribute of that name, whatever its namespace.
pub open spec fn attribute_from(a: Seq<AttributeView>, name: Seq<char>, i: int) -> Option<Seq<char>>
    decreases a.len() - i,
{
    if i < 0 || i >= a.len() {
        None
    } else if a[i].name == name {
        Some(a[i].value)
    } else {
        attribute_from(a, name, i + 1)
    }
}

/// The value of the first attribute with that namespace and name.
pub open spec fn qualified_from(
    a: Seq<AttributeView>,
    namespace: Seq<char>,
    name: Seq<char>,
    i: int,
) -> Option<Seq<char>>
    decreases a.len() - i,
{
    if i < 0 || i >= a.len() {
        None
    } else if a[i].namespace == Some(namespace) && a[i].name == name {
        Some(a[i].value)
    } else {
        qualified_from(a, namespace, name, i + 1)
    }
}

impl NodeView {
    pub open spec fn attribute(self, name: Seq<char>) -> Option<Seq<char>> {
        attribute_from(self.attributes, name, 0)
    }

    pub open spec fn qualified(self, namespace: Seq<char>, name: Seq<char>) -> Option<Seq<char>> {
        qualified_from(self.attributes, namespace, name, 0)
    }

    /// An element of that name.
    pub open spec fn is_named(self, name: Seq<char>) -> bool {
        self.kind == NodeKind::Element && self.name == name
    }
}

/// The view of an optional string slice.
pub open spec fn slice_opt(o: Option<&str>) -> Option<Seq<char>> {
    match o {
        Some(s) => Some(s@),
        None => None,
    }
}

impl Node {
    /// An attribute by its name, whatever its namespace.
    pub fn attribute(&self, name: &str) -> (r: Option<&str>)
        ensures
            slice_opt(r) == self@.attribute(name@),
    {
        let mut i: usize = 0;
        while i < self.attributes.len()
            invariant
                i <= self.attributes@.len(),
                attribute_from(self@.attributes, name@, 0) == attribute_from(
                    self@.attributes,
                    name@,
                    i as int,
                ),
            decreases self.attributes@.len() - i,
        {
            assert(self@.attributes[i as int] == self.attributes@[i as int]@);
            if same(&self.attributes[i].name, name) {
                return Some(self.attributes[i].value.as_str());
            }
            i += 1;
        }
        None
    }

    /// An attribute by its namespace and name.
    pub fn qualified(&self, namespace: &str, name: &str) -> (r: Option<&str>)
        ensures
            slice_opt(r) == self@.qualified(namespace@, name@),
    {
        let mut i: usize = 0;
        while i < self.attributes.len()
            invariant
                i <= self.attributes@.len(),
                qualified_from(self@.attributes, namespace@, name@, 0) == qualified_from(
                    self@.attributes,
                    namespace@,
                    name@,
                    i as int,
                ),
            decreases self.attributes@.len() - i,
        {
            assert(self@.attributes[i as int] == self.attributes@[i as int]@);
            let within = match &self.attributes[i].namespace {
                Some(n) => same(n, namespace),
                None => false,
            };
            if within && same(&self.attributes[i].name, name) {
                return Some(self.attributes[i].value.as_str());
            }
            i += 1;
        }
        None
    }

    /// Whether this is an element of that name.
    pub fn is_named(&self, name: &str) -> (r: bool)
        ensures
            r == self@.is_named(name@),
    {
        self.kind == NodeKind::Element && same(&self.name, name)
    }
}

/// The text of every text node from `from` up to `to`.
pub open spec fn raw_text(d: Seq<NodeView>, from: int, to: int) -> Seq<char>
    decreases to - from,
{
    if from >= to || from < 0 || to > d.len() {
        Seq::empty()
    } else {
        raw_text(d, from, to - 1) + (if d[to - 1].kind == NodeKind::Text {
            d[to - 1].text
        } else {
            Seq::empty()
        })
    }
}

/// The first element of that name from `from` up to `to`.
pub open spec fn find_named(d: Seq<NodeView>, name: Seq<char>, from: int, to: int) -> Option<int>
    decreases to - from,
{
    if from >= to || from < 0 || to > d.len() {
        None
    } else if d[from].is_named(name) {
        Some(from)
    } else {
        find_named(d, name, from + 1, to)
    }
}

/// The first element among siblings from `from` up to `to`.
pub open spec fn first_element(d: Seq<NodeView>, from: int, to: int) -> Option<int>
    decreases to - from,
{
    if from >= to || from < 0 || to > d.len() {
        None
    } else if d[from].kind == NodeKind::Element {
        Some(from)
    } else {
        first_element(d, subtree_end(d, from, to), to)
    }
}

/// The outermost element, or the first node when there is none.
pub open spec fn root_of(d: Seq<NodeView>) -> int {
    if d.len() == 0 {
        0
    } else {
        match first_element(d, 1, subtree_end(d, 0, d.len() as int)) {
            Some(i) => i,
            None => 0,
        }
    }
}

pub open spec fn index_of(o: Option<usize>) -> Option<int> {
    match o {
        Some(i) => Some(i as int),
        None => None,
    }
}

impl Document {
    /// Parses a document. A DTD is allowed: chapter documents carry a doctype
    /// and, in EPUB 2, an internal entity subset.
    pub fn parse(xml: &str) -> (r: Result<Document, String>)
        ensures
            match r {
                Ok(d) => parsed_xml(xml@, true) == Ok::<Seq<NodeView>, Seq<char>>(d@),
                Err(e) => parsed_xml(xml@, true) == Err::<Seq<NodeView>, Seq<char>>(e@),
            },
    {
        match parse_nodes(xml, true) {
            Ok(nodes) => Ok(Document { nodes }),
            Err(message) => Err(message),
        }
    }

    /// Where the subtree of a node ends.
    pub fn end_of(&self, i: usize, limit: usize) -> (r: usize)
        requires
            i < limit <= self@.len(),
        ensures
            r == subtree_end(self@, i as int, limit as int),
            i < r <= limit,
    {
        assert(self@[i as int] == self.nodes@[i as int]@);
        let size = self.nodes[i].size;
        if size < 1 {
            i + 1
        } else if size > limit - i {
            limit
        } else {
            i + size
        }
    }

    /// The text of every text node from `from` up to `to`.
    pub fn raw_text(&self, from: usize, to: usize) -> (r: Vec<char>)
        requires
            from <= to <= self@.len(),
        ensures
            r@ == raw_text(self@, from as int, to as int),
    {
        let mut out: Vec<char> = Vec::new();
        let mut i: usize = from;
        while i < to
            invariant
                from <= i <= to <= self@.len(),
                out@ == raw_text(self@, from as int, i as int),
            decreases to - i,
        {
            assert(self@[i as int] == self.nodes@[i as int]@);
            if self.nodes[i].kind == NodeKind::Text {
                push_text(&mut out, &self.nodes[i].text);
            } else {
                assert(out@ + Seq::<char>::empty() =~= out@);
            }
            i += 1;
        }
        out
    }

    /// The first element of that name from `from` up to `to`.
    pub fn find_named(&self, name: &str, from: usize, to: usize) -> (r: Option<usize>)
        requires
            from <= to <= self@.len(),
        ensures
            index_of(r) == find_named(self@, name@, from as int, to as int),
            r matches Some(i) ==> from <= i < to,
    {
        let mut i: usize = from;
        while i < to
            invariant
                from <= i <= to <= self@.len(),
                find_named(self@, name@, from as int, to as int) == find_named(
                    self@,
                    name@,
                    i as int,
                    to as int,
                ),
            decreases to - i,
        {
            assert(self@[i as int] == self.nodes@[i as int]@);
            if self.nodes[i].is_named(name) {
                return Some(i);
            }
            i += 1;
        }
        None
    }

    /// The outermost element.
    pub fn root_element(&self) -> (r: usize)
        ensures
            r == root_of(self@),
            self@.len() > 0 ==> r < self@.len(),
    {
        if self.nodes.len() == 0 {
            return 0;
        }
        let end = self.end_of(0, self.nodes.len());
        let mut i: usize = 1;
        while i < end
            invariant
                1 <= i <= end <= self@.len(),
                end == subtree_end(self@, 0, self@.len() as int),
                first_element(self@, 1, end as int) == first_element(self@, i as int, end as int),
            decreases end - i,
        {
            assert(self@[i as int] == self.nodes@[i as int]@);
            if self.nodes[i].kind == NodeKind::Element {
                return i;
            }
            i = self.end_of(i, end);
        }
        0
    }
}

} // verus!
