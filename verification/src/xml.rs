//! XML documents as plain trees. The parsing itself is `roxmltree`'s; what
//! the library reads of a parsed document is copied, node by node, into an
//! [`XmlTree`].
use vstd::prelude::*;

verus! {

/// The kind of an XML node.
#[derive(Debug, Clone, Copy, PartialEq, Eq, Structural)]
pub enum XmlKind {
    /// The document node, above the root element.
    Root,
    Element,
    Text,
    /// A comment or a processing instruction.
    Other,
}

/// An attribute: its namespace URI, local name and value.
#[derive(Debug)]
pub struct XmlAttribute {
    pub namespace: Option<String>,
    pub name: String,
    pub value: String,
}

/// One node of a document, with the positions of its children.
#[derive(Debug)]
pub struct XmlNode {
    pub kind: XmlKind,
    /// The namespace URI of an element's tag.
    pub namespace: Option<String>,
    /// The local name of an element's tag (empty for other nodes).
    pub name: String,
    pub attributes: Vec<XmlAttribute>,
    /// The text of a text node (or comment; for an element, its first text child).
    pub text: Option<String>,
    /// The source text that the node spans.
    pub source: String,
    /// The positions of the children, in document order.
    pub children: Vec<usize>,
}

/// A document: its nodes in document order, the document node first.
#[derive(Debug)]
pub struct XmlTree {
    pub nodes: Vec<XmlNode>,
}

pub struct XmlAttributeView {
    pub namespace: Option<Seq<char>>,
    pub name: Seq<char>,
    pub value: Seq<char>,
}

pub struct XmlNodeView {
    pub kind: XmlKind,
    pub namespace: Option<Seq<char>>,
    pub name: Seq<char>,
    pub attributes: Seq<XmlAttributeView>,
    pub text: Option<Seq<char>>,
    pub source: Seq<char>,
    pub children: Seq<usize>,
}

pub open spec fn opt_view(o: Option<String>) -> Option<Seq<char>> {
    match o {
        Some(s) => Some(s@),
        None => None,
    }
}

impl View for XmlAttribute {
    type V = XmlAttributeView;

    open spec fn view(&self) -> XmlAttributeView {
        XmlAttributeView { namespace: opt_view(self.namespace), name: self.name@, value: self.value@ }
    }
}

impl View for XmlNode {
    type V = XmlNodeView;

    open spec fn view(&self) -> XmlNodeView {
        XmlNodeView {
            kind: self.kind,
            namespace: opt_view(self.namespace),
            name: self.name@,
            attributes: self.attributes@.map_values(|a: XmlAttribute| a@),
            text: opt_view(self.text),
            source: self.source@,
            children: self.children@,
        }
    }
}

impl View for XmlTree {
    type V = Seq<XmlNodeView>;

    open spec fn view(&self) -> Seq<XmlNodeView> {
        self.nodes@.map_values(|n: XmlNode| n@)
    }
}

// ---------------------------------------------------------------------------
// roxmltree
// ---------------------------------------------------------------------------

#[verifier::external_type_specification]
#[verifier::external_body]
pub struct ExDocument<'input>(roxmltree::Document<'input>);

/// The nodes that `roxmltree::Document::parse` makes of a text, in
/// document order, or `None` where it refuses the text.
pub uninterp spec fn xml_document(text: Seq<char>) -> Option<Seq<XmlNodeView>>;

/// The nodes that a parsed document holds, in document order.
pub uninterp spec fn xml_nodes(doc: roxmltree::Document) -> Seq<XmlNodeView>;

/// `roxmltree::Document::parse`: the document is the one named by
/// `xml_document` of the text, and it fails exactly where that is `None`
/// (with the parser's message, of which nothing is stated).
#[verifier::external_body]
fn parse_document(text: &str) -> (res: Result<roxmltree::Document<'_>, String>)
    ensures
        res is Ok <==> xml_document(text@) is Some,
        res matches Ok(doc) ==> xml_document(text@) == Some(xml_nodes(doc)),
{
    roxmltree::Document::parse(text).map_err(|e| e.to_string())
}

/// `Document::descendants().len()`: the number of nodes, the document node
/// included.
#[verifier::external_body]
fn node_count(doc: &roxmltree::Document) -> (n: usize)
    ensures
        n == xml_nodes(*doc).len(),
{
    doc.descendants().len()
}

/// `Node::node_type` of the node with ID `i`.
#[verifier::external_body]
fn node_kind(doc: &roxmltree::Document, i: usize) -> (k: XmlKind)
    requires
        i < xml_nodes(*doc).len(),
    ensures
        k == xml_nodes(*doc)[i as int].kind,
{
    match doc.get_node(roxmltree::NodeId::from(i)).unwrap().node_type() {
        roxmltree::NodeType::Root => XmlKind::Root,
        roxmltree::NodeType::Element => XmlKind::Element,
        roxmltree::NodeType::Text => XmlKind::Text,
        roxmltree::NodeType::PI => XmlKind::Other,
        roxmltree::NodeType::Comment => XmlKind::Other,
    }
}

/// `Node::tag_name().namespace()` of the node with ID `i`.
#[verifier::external_body]
fn node_namespace(doc: &roxmltree::Document, i: usize) -> (r: Option<String>)
    requires
        i < xml_nodes(*doc).len(),
    ensures
        opt_view(r) == xml_nodes(*doc)[i as int].namespace,
{
    doc.get_node(roxmltree::NodeId::from(i)).unwrap().tag_name().namespace().map(str::to_owned)
}

/// `Node::tag_name().name()` of the node with ID `i`.
#[verifier::external_body]
fn node_name(doc: &roxmltree::Document, i: usize) -> (r: String)
    requires
        i < xml_nodes(*doc).len(),
    ensures
        r@ == xml_nodes(*doc)[i as int].name,
{
    doc.get_node(roxmltree::NodeId::from(i)).unwrap().tag_name().name().to_owned()
}

/// `Node::attributes().len()` of the node with ID `i`.
#[verifier::external_body]
fn attribute_count(doc: &roxmltree::Document, i: usize) -> (n: usize)
    requires
        i < xml_nodes(*doc).len(),
    ensures
        n == xml_nodes(*doc)[i as int].attributes.len(),
{
    doc.get_node(roxmltree::NodeId::from(i)).unwrap().attributes().len()
}

/// The `j`-th of `Node::attributes()` of the node with ID `i`.
#[verifier::external_body]
fn attribute_at(doc: &roxmltree::Document, i: usize, j: usize) -> (a: XmlAttribute)
    requires
        i < xml_nodes(*doc).len(),
        j < xml_nodes(*doc)[i as int].attributes.len(),
    ensures
        a@ == xml_nodes(*doc)[i as int].attributes[j as int],
{
    let a = doc.get_node(roxmltree::NodeId::from(i)).unwrap().attributes().nth(j).unwrap();
    XmlAttribute { namespace: a.namespace().map(str::to_owned), name: a.name().to_owned(), value: a.value().to_owned() }
}

/// `Node::text()` of the node with ID `i`.
#[verifier::external_body]
fn node_text(doc: &roxmltree::Document, i: usize) -> (r: Option<String>)
    requires
        i < xml_nodes(*doc).len(),
    ensures
        opt_view(r) == xml_nodes(*doc)[i as int].text,
{
    doc.get_node(roxmltree::NodeId::from(i)).unwrap().text().map(str::to_owned)
}

/// The input text in `Node::range()` of the node with ID `i`.
#[verifier::external_body]
fn node_source(doc: &roxmltree::Document, i: usize) -> (r: String)
    requires
        i < xml_nodes(*doc).len(),
    ensures
        r@ == xml_nodes(*doc)[i as int].source,
{
    doc.input_text()[doc.get_node(roxmltree::NodeId::from(i)).unwrap().range()].to_owned()
}

/// The IDs of `Node::children()` of the node with ID `i`.
#[verifier::external_body]
fn node_children(doc: &roxmltree::Document, i: usize) -> (r: Vec<usize>)
    requires
        i < xml_nodes(*doc).len(),
    ensures
        r@ == xml_nodes(*doc)[i as int].children,
{
    doc.get_node(roxmltree::NodeId::from(i)).unwrap().children().map(|c| c.id().get_usize()).collect()
}

/// Copies every node of a parsed document into a plain tree.
fn read_tree(doc: &roxmltree::Document) -> (t: XmlTree)
    ensures
        t@ == xml_nodes(*doc),
{
    let n = node_count(doc);
    let mut nodes: Vec<XmlNode> = Vec::new();
    let mut i: usize = 0;
    while i < n
        invariant
            n == xml_nodes(*doc).len(),
            i <= n,
            nodes@.map_values(|x: XmlNode| x@) == xml_nodes(*doc).take(i as int),
        decreases n - i,
    {
        let count = attribute_count(doc, i);
        let mut attributes: Vec<XmlAttribute> = Vec::new();
        let mut j: usize = 0;
        while j < count
            invariant
                i < xml_nodes(*doc).len(),
                count == xml_nodes(*doc)[i as int].attributes.len(),
                j <= count,
                attributes@.map_values(|a: XmlAttribute| a@) == xml_nodes(*doc)[i as int].attributes.take(j as int),
            decreases count - j,
        {
            let a = attribute_at(doc, i, j);
            let ghost before = attributes@;
            attributes.push(a);
            proof {
                let attrs = xml_nodes(*doc)[i as int].attributes;
                assert(attributes@ == before.push(a));
                assert(before.push(a).map_values(|a: XmlAttribute| a@)
                    =~= before.map_values(|a: XmlAttribute| a@).push(a@));
                assert(attrs.take(j + 1) =~= attrs.take(j as int).push(attrs[j as int]));
            }
            j += 1;
        }
        proof {
            assert(xml_nodes(*doc)[i as int].attributes.take(count as int) == xml_nodes(*doc)[i as int].attributes);
        }
        let node = XmlNode {
            kind: node_kind(doc, i),
            namespace: node_namespace(doc, i),
            name: node_name(doc, i),
            attributes,
            text: node_text(doc, i),
            source: node_source(doc, i),
            children: node_children(doc, i),
        };
        let ghost before = nodes@;
        nodes.push(node);
        proof {
            let all = xml_nodes(*doc);
            assert(node@ == all[i as int]);
            assert(nodes@ == before.push(node));
            assert(before.push(node).map_values(|x: XmlNode| x@) =~= before.map_values(|x: XmlNode| x@).push(node@));
            assert(all.take(i + 1) =~= all.take(i as int).push(all[i as int]));
        }
        i += 1;
    }
    proof { assert(xml_nodes(*doc).take(n as int) == xml_nodes(*doc)); }
    XmlTree { nodes }
}

/// Parses XML text with `roxmltree` into a plain tree: the tree of
/// `xml_document`, or the parser's message where it refuses the text.
pub fn parse_xml(text: &str) -> (res: Result<XmlTree, String>)
    ensures
        match res {
            Ok(t) => xml_document(text@) == Some(t@),
            Err(_) => xml_document(text@) is None,
        },
{
    let doc = parse_document(text)?;
    Ok(read_tree(&doc))
}

} // verus!
