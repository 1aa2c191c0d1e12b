//! The document model the extractor works on: the nodes of the parsed
//! HTML tree, flattened in document order (pre-order), each carrying its
//! depth in the tree. Element nodes carry their lower-cased tag name and
//! text nodes their text; every other kind of node carries nothing, so the
//! verified extraction logic can treat the document as a plain sequence.
use vstd::prelude::*;

verus! {

/// What one flattened node holds.
pub enum NodeData {
    /// An element, with its lower-cased tag name.
    Element { tag: String },
    /// A text node, with its text.
    Text { content: String },
    /// Any other kind of node (comment, doctype, document root, ...).
    Other,
}

/// One node of the flattened document: its depth in the tree (the number
/// of its ancestors) and what it holds.
pub struct DomNode {
    pub depth: usize,
    pub data: NodeData,
}

pub ghost enum NodeDataV {
    Element { tag: Seq<char> },
    Text { content: Seq<char> },
    Other,
}

pub ghost struct DomNodeV {
    pub depth: int,
    pub data: NodeDataV,
}

impl View for NodeData {
    type V = NodeDataV;

    open spec fn view(&self) -> NodeDataV {
        match self {
            NodeData::Element { tag } => NodeDataV::Element { tag: tag@ },
            NodeData::Text { content } => NodeDataV::Text { content: content@ },
            NodeData::Other => NodeDataV::Other,
        }
    }
}

impl View for DomNode {
    type V = DomNodeV;

    open spec fn view(&self) -> DomNodeV {
        DomNodeV { depth: self.depth as int, data: self.data@ }
    }
}

pub open spec fn dom_view(nodes: Seq<DomNode>) -> Seq<DomNodeV> {
    nodes.map_values(|n: DomNode| n@)
}

/// The flattened node tree that parsing an HTML text yields. HTML parsing
/// is the outside parser's affair; nothing here states what the sequence
/// looks like, and every consumer of it is verified for every value it
/// could take.
pub uninterp spec fn dom_of(s: Seq<char>) -> Seq<DomNodeV>;

/// Relies on scraper::Html::parse_document: parses the text as an HTML
/// document into a node tree, with the tag names of HTML elements
/// lower-cased by the parser. The tree is returned flattened in document
/// order; each node's depth is its number of ancestors.
#[verifier::external_body]
pub fn parse_document(html: &str) -> (r: Vec<DomNode>)
    ensures
        dom_view(r@) == dom_of(html@),
{
    let doc = scraper::Html::parse_document(html);
    doc.tree.root().descendants().map(|n| DomNode {
        depth: n.ancestors().count(),
        data: match n.value() {
            scraper::Node::Element(e) => NodeData::Element { tag: e.name().to_string() },
            scraper::Node::Text(t) => NodeData::Text { content: (&**t).to_string() },
            _ => NodeData::Other,
        },
    }).collect()
}

/// Relies on String::from_utf8: succeeds exactly on valid UTF-8 input and
/// yields the decoded scalar values.
#[verifier::external_body]
pub fn decode_utf8_bytes(bytes: Vec<u8>) -> (r: Option<String>)
    ensures
        match r {
            Some(s) => vstd::utf8::valid_utf8(bytes@) && s@ == vstd::utf8::decode_utf8(bytes@),
            None => !vstd::utf8::valid_utf8(bytes@),
        },
{
    String::from_utf8(bytes).ok()
}

} // verus!
