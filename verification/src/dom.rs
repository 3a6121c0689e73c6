//! The boundary to the HTML parser. Parsing is done by the `kuchiki` crate
//! (an html5ever tree); the functions here hand the parsed tree over to the
//! library's own `Node` type, node by node, through a small set of trusted
//! accessors. `tree_of` names the model of an opaque parsed node; the
//! accessors' contracts say how each call reads that model.
use vstd::prelude::*;

use crate::tree::{
    elem_attrs, elem_local, elem_ns, lemma_children_size, lemma_forest_size_element,
    forest_model, lemma_vec_node_forest_model, model_size, node_model, spec_children, spec_kind, text_of,
    doctype_parts, Attr, Node, NodeKind, NodeModel,
};
use kuchiki::traits::TendrilSink;

verus! {

#[verifier::external_type_specification]
#[verifier::external_body]
pub struct ExNodeRef(kuchiki::NodeRef);

/// The model of the tree hanging from a parsed node.
pub uninterp spec fn tree_of(n: kuchiki::NodeRef) -> NodeModel;

/// The document tree that parsing an HTML string yields.
pub uninterp spec fn doc_tree_of(html: Seq<char>) -> NodeModel;

/// The parse diagnostics that parsing an HTML string yields, in report order.
pub uninterp spec fn parse_errors_of(html: Seq<char>) -> Seq<Seq<char>>;

/// Relies on `kuchiki::parse_html_with_options` (the html5ever document
/// parser): parsing is lenient and deterministic in the input string; it
/// returns the document node, and reports each parse error to the callback in
/// order.
#[verifier::external_body]
pub(crate) fn parse_document(html: &str) -> (r: (kuchiki::NodeRef, Vec<String>))
    ensures
        tree_of(r.0) == doc_tree_of(html@),
        tree_of(r.0) is Document,
        r.1.deep_view() == parse_errors_of(html@),
{
    let errors: std::rc::Rc<std::cell::RefCell<Vec<String>>> =
        std::rc::Rc::new(std::cell::RefCell::new(Vec::new()));
    let log = errors.clone();
    let mut opts = kuchiki::ParseOpts::default();
    opts.on_parse_error = Some(Box::new(move |m| log.borrow_mut().push(m.into_owned())));
    let root = kuchiki::parse_html_with_options(opts).one(html);
    let errs = errors.borrow().clone();
    (root, errs)
}

/// Relies on `kuchiki::Node::data`: reports which variant a parsed node is.
/// Processing instructions are modelled as comments and document fragments as
/// documents; neither occurs in a parsed HTML document.
#[verifier::external_body]
fn node_kind(n: &kuchiki::NodeRef) -> (r: NodeKind)
    ensures
        r == spec_kind(tree_of(*n)),
{
    match n.data() {
        kuchiki::NodeData::Element(_) => NodeKind::Element,
        kuchiki::NodeData::Text(_) => NodeKind::Text,
        kuchiki::NodeData::Comment(_) => NodeKind::Comment,
        kuchiki::NodeData::ProcessingInstruction(_) => NodeKind::Comment,
        kuchiki::NodeData::Doctype(_) => NodeKind::Doctype,
        kuchiki::NodeData::Document(_) => NodeKind::Document,
        kuchiki::NodeData::DocumentFragment => NodeKind::Document,
    }
}

/// Relies on `kuchiki::Node::children`: yields the node's children in order.
#[verifier::external_body]
fn node_children(n: &kuchiki::NodeRef) -> (r: Vec<kuchiki::NodeRef>)
    ensures
        r@.len() == spec_children(tree_of(*n)).len(),
        forall|i: int|
            0 <= i < r@.len() ==> tree_of(r@[i]) == spec_children(tree_of(*n))[i],
{
    n.children().collect()
}

/// Relies on `kuchiki::Node::as_element` and `html5ever::QualName`: the
/// namespace and local name of an element, as bytes.
#[verifier::external_body]
fn element_name(n: &kuchiki::NodeRef) -> (r: (Vec<u8>, Vec<u8>))
    requires
        tree_of(*n) is Element,
    ensures
        r.0@ == elem_ns(tree_of(*n)),
        r.1@ == elem_local(tree_of(*n)),
{
    let e = n.as_element().unwrap();
    (e.name.ns.as_bytes().to_vec(), e.name.local.as_bytes().to_vec())
}

/// Relies on `kuchiki::Attributes`: the attribute map of an element, iterated
/// in its fixed (sorted) order, each name and value as bytes.
#[verifier::external_body]
fn element_attrs(n: &kuchiki::NodeRef) -> (r: Vec<Attr>)
    requires
        tree_of(*n) is Element,
    ensures
        r.deep_view() == elem_attrs(tree_of(*n)),
{
    let e = n.as_element().unwrap();
    e.attributes.borrow().map.iter().map(|(k, a)| Attr {
        ns: k.ns.as_bytes().to_vec(),
        local: k.local.as_bytes().to_vec(),
        value: a.value.as_bytes().to_vec(),
    }).collect()
}

/// Relies on `kuchiki::Node::as_text`: the contents of a text node, as bytes.
#[verifier::external_body]
fn text_content(n: &kuchiki::NodeRef) -> (r: Vec<u8>)
    requires
        tree_of(*n) is Text,
    ensures
        r@ == text_of(tree_of(*n)),
{
    n.as_text().unwrap().borrow().as_bytes().to_vec()
}

/// Relies on `kuchiki::Node::as_doctype`: name, public id and system id of a
/// doctype node, as bytes.
#[verifier::external_body]
fn doctype_info(n: &kuchiki::NodeRef) -> (r: (Vec<u8>, Vec<u8>, Vec<u8>))
    requires
        tree_of(*n) is Doctype,
    ensures
        r.0@ == doctype_parts(tree_of(*n)).0,
        r.1@ == doctype_parts(tree_of(*n)).1,
        r.2@ == doctype_parts(tree_of(*n)).2,
{
    let d = n.as_doctype().unwrap();
    (
        d.name.as_bytes().to_vec(),
        d.public_id.as_bytes().to_vec(),
        d.system_id.as_bytes().to_vec(),
    )
}

/// Converts the children of a parsed node into owned trees.
fn convert_children(n: &kuchiki::NodeRef) -> (r: Vec<Node>)
    requires
        tree_of(*n) is Document || tree_of(*n) is Element,
    ensures
        forest_matches(r@, spec_children(tree_of(*n))),
    decreases model_size(tree_of(*n)), 0int,
{
    let kids = node_children(n);
    let ghost cm = spec_children(tree_of(*n));
    let mut children: Vec<Node> = Vec::new();
    let mut i: usize = 0;
    while i < kids.len()
        invariant
            0 <= i <= kids@.len(),
            kids@.len() == cm.len(),
            forall|j: int| 0 <= j < kids@.len() ==> tree_of(kids@[j]) == cm[j],
            cm == spec_children(tree_of(*n)),
            tree_of(*n) is Document || tree_of(*n) is Element,
            children@.len() == i,
            forall|j: int| 0 <= j < i ==> children@[j].deep_view() == cm[j],
        decreases kids@.len() - i,
    {
        proof {
            lemma_forest_size_element(cm, i as int);
            lemma_children_size(tree_of(*n));
        }
        let c = convert_tree(&kids[i]);
        children.push(c);
        i = i + 1;
    }
    children
}

/// Whether an owned forest models exactly a given forest model.
pub open spec fn forest_matches(s: Seq<Node>, m: Seq<NodeModel>) -> bool {
    s.len() == m.len() && forall|j: int| 0 <= j < s.len() ==> s[j].deep_view() == m[j]
}

/// Converts a parsed tree into the library's own node type.
pub(crate) fn convert_tree(n: &kuchiki::NodeRef) -> (r: Node)
    ensures
        r.deep_view() == tree_of(*n),
    decreases model_size(tree_of(*n)), 1int,
{
    let ghost m = tree_of(*n);
    let kind = node_kind(n);
    match kind {
        NodeKind::Document => {
            let children = convert_children(n);
            let r = Node::Document { children };
            proof {
                lemma_vec_node_forest_model(r->Document_children);
                assert(spec_children(m) =~= forest_model(r->Document_children@));
                assert(r.deep_view() == m);
            }
            r
        },
        NodeKind::Element => {
            let (ns, local) = element_name(n);
            let attrs = element_attrs(n);
            let children = convert_children(n);
            let r = Node::Element { ns, local, attrs, children };
            proof {
                lemma_vec_node_forest_model(r->Element_children);
                assert(spec_children(m) =~= forest_model(r->Element_children@));
                assert(r.deep_view() == m);
            }
            r
        },
        NodeKind::Doctype => {
            let (name, public_id, system_id) = doctype_info(n);
            Node::Doctype { name, public_id, system_id }
        },
        NodeKind::Text => {
            let text = text_content(n);
            Node::Text { text }
        },
        NodeKind::Comment => Node::Comment,
    }
}

} // verus!
