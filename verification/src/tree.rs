//! The tree that matching works on: documents, doctypes, elements with
//! attributes, text and comments, together with its mathematical model.
use vstd::prelude::*;

verus! {

/// One attribute: qualified name (namespace, local) and value, all byte strings.
pub struct Attr {
    pub ns: Vec<u8>,
    pub local: Vec<u8>,
    pub value: Vec<u8>,
}

/// Model of an attribute.
pub struct AttrModel {
    pub ns: Seq<u8>,
    pub local: Seq<u8>,
    pub value: Seq<u8>,
}

/// A node of a parsed HTML tree.
pub enum Node {
    Document { children: Vec<Node> },
    Doctype { name: Vec<u8>, public_id: Vec<u8>, system_id: Vec<u8> },
    Element { ns: Vec<u8>, local: Vec<u8>, attrs: Vec<Attr>, children: Vec<Node> },
    Text { text: Vec<u8> },
    Comment,
}

/// Model of a node: the same shape over `Seq`.
pub enum NodeModel {
    Document { children: Seq<NodeModel> },
    Doctype { name: Seq<u8>, public_id: Seq<u8>, system_id: Seq<u8> },
    Element { ns: Seq<u8>, local: Seq<u8>, attrs: Seq<AttrModel>, children: Seq<NodeModel> },
    Text { text: Seq<u8> },
    Comment,
}

impl DeepView for Attr {
    type V = AttrModel;

    open spec fn deep_view(&self) -> AttrModel {
        AttrModel { ns: self.ns@, local: self.local@, value: self.value@ }
    }
}

pub open spec fn node_model(n: Node) -> NodeModel
    decreases n,
{
    match n {
        Node::Document { children } => NodeModel::Document { children: forest_model(children@) },
        Node::Doctype { name, public_id, system_id } => NodeModel::Doctype {
            name: name@,
            public_id: public_id@,
            system_id: system_id@,
        },
        Node::Element { ns, local, attrs, children } => NodeModel::Element {
            ns: ns@,
            local: local@,
            attrs: attrs.deep_view(),
            children: forest_model(children@),
        },
        Node::Text { text } => NodeModel::Text { text: text@ },
        Node::Comment => NodeModel::Comment,
    }
}

pub open spec fn forest_model(s: Seq<Node>) -> Seq<NodeModel>
    decreases s,
{
    if s.len() == 0 {
        Seq::empty()
    } else {
        seq![node_model(s[0])] + forest_model(s.subrange(1, s.len() as int))
    }
}

impl DeepView for Node {
    type V = NodeModel;

    open spec fn deep_view(&self) -> NodeModel {
        node_model(*self)
    }
}

/// The forest model indexes pointwise.
pub proof fn lemma_forest_model_index(s: Seq<Node>)
    ensures
        forest_model(s).len() == s.len(),
        forall|i: int| 0 <= i < s.len() ==> forest_model(s)[i] == node_model(s[i]),
    decreases s.len(),
{
    if s.len() > 0 {
        lemma_forest_model_index(s.subrange(1, s.len() as int));
        assert forall|i: int| 0 <= i < s.len() implies forest_model(s)[i] == node_model(s[i]) by {
            if i > 0 {
                assert(forest_model(s)[i] == forest_model(s.subrange(1, s.len() as int))[i - 1]);
                assert(s.subrange(1, s.len() as int)[i - 1] == s[i]);
            }
        }
    }
}

/// A vector of nodes and its deep view have the forest model.
pub broadcast proof fn lemma_vec_node_forest_model(v: Vec<Node>)
    ensures
        #[trigger] v.deep_view() == forest_model(v@),
{
    lemma_forest_model_index(v@);
    assert(v.deep_view() =~= forest_model(v@));
}

/// The variant of a node.
#[derive(PartialEq, Eq, Structural, Clone, Copy)]
pub enum NodeKind {
    Document,
    Doctype,
    Element,
    Text,
    Comment,
}

pub open spec fn spec_kind(m: NodeModel) -> NodeKind {
    match m {
        NodeModel::Document { .. } => NodeKind::Document,
        NodeModel::Doctype { .. } => NodeKind::Doctype,
        NodeModel::Element { .. } => NodeKind::Element,
        NodeModel::Text { .. } => NodeKind::Text,
        NodeModel::Comment => NodeKind::Comment,
    }
}

pub open spec fn elem_ns(m: NodeModel) -> Seq<u8> {
    match m {
        NodeModel::Element { ns, .. } => ns,
        _ => Seq::empty(),
    }
}

pub open spec fn elem_local(m: NodeModel) -> Seq<u8> {
    match m {
        NodeModel::Element { local, .. } => local,
        _ => Seq::empty(),
    }
}

pub open spec fn elem_attrs(m: NodeModel) -> Seq<AttrModel> {
    match m {
        NodeModel::Element { attrs, .. } => attrs,
        _ => Seq::empty(),
    }
}

pub open spec fn text_of(m: NodeModel) -> Seq<u8> {
    match m {
        NodeModel::Text { text } => text,
        _ => Seq::empty(),
    }
}

pub open spec fn doctype_parts(m: NodeModel) -> (Seq<u8>, Seq<u8>, Seq<u8>) {
    match m {
        NodeModel::Doctype { name, public_id, system_id } => (name, public_id, system_id),
        _ => (Seq::empty(), Seq::empty(), Seq::empty()),
    }
}

/// The children of a node, as a model forest; leaves have none.
pub open spec fn spec_children(m: NodeModel) -> Seq<NodeModel> {
    match m {
        NodeModel::Document { children } => children,
        NodeModel::Element { children, .. } => children,
        _ => Seq::empty(),
    }
}

/// Size of a node model: the number of nodes in the subtree.
pub open spec fn model_size(m: NodeModel) -> nat
    decreases m,
{
    match m {
        NodeModel::Document { children } => 1 + forest_size(children),
        NodeModel::Element { children, .. } => 1 + forest_size(children),
        _ => 1,
    }
}

/// Size of a forest: sum of the node sizes.
pub open spec fn forest_size(s: Seq<NodeModel>) -> nat
    decreases s,
{
    if s.len() == 0 {
        0nat
    } else {
        model_size(s[0]) + forest_size(s.subrange(1, s.len() as int))
    }
}

pub proof fn lemma_model_size_pos(m: NodeModel)
    ensures
        model_size(m) >= 1,
{
}

pub proof fn lemma_children_size(m: NodeModel)
    ensures
        forest_size(spec_children(m)) < model_size(m),
{
}

/// Splitting off the node at `i`: the suffix from `i` weighs the node plus the rest.
pub proof fn lemma_forest_size_skip_step(s: Seq<NodeModel>, i: int)
    requires
        0 <= i < s.len(),
    ensures
        forest_size(s.skip(i)) == model_size(s[i]) + forest_size(s.skip(i + 1)),
{
    let t = s.skip(i);
    assert(t.len() > 0);
    assert(t[0] == s[i]);
    assert(t.subrange(1, t.len() as int) =~= s.skip(i + 1));
}

/// A suffix of a forest weighs no more than the forest.
pub proof fn lemma_forest_size_skip_le(s: Seq<NodeModel>, i: int, j: int)
    requires
        0 <= i <= j <= s.len(),
    ensures
        forest_size(s.skip(j)) <= forest_size(s.skip(i)),
    decreases j - i,
{
    if i < j {
        lemma_forest_size_skip_step(s, i);
        lemma_forest_size_skip_le(s, i + 1, j);
    }
}

/// Any element weighs no more than the forest that holds it.
pub proof fn lemma_forest_size_element(s: Seq<NodeModel>, i: int)
    requires
        0 <= i < s.len(),
    ensures
        model_size(s[i]) <= forest_size(s),
{
    assert(s.skip(0) =~= s);
    lemma_forest_size_skip_le(s, 0, i);
    lemma_forest_size_skip_step(s, i);
}

/// The forest model of a suffix is the suffix of the forest model.
pub proof fn lemma_forest_model_skip(s: Seq<Node>, i: int)
    requires
        0 <= i <= s.len(),
    ensures
        forest_model(s.skip(i)) == forest_model(s).skip(i),
{
    lemma_forest_model_index(s);
    lemma_forest_model_index(s.skip(i));
    assert(forest_model(s.skip(i)) =~= forest_model(s).skip(i));
}

/// Copy of a byte vector.
pub fn copy_bytes(v: &Vec<u8>) -> (r: Vec<u8>)
    ensures
        r@ == v@,
{
    vstd::slice::slice_to_vec(v.as_slice())
}

/// Copy of an attribute.
pub fn copy_attr(a: &Attr) -> (r: Attr)
    ensures
        r.deep_view() == a.deep_view(),
{
    Attr { ns: copy_bytes(&a.ns), local: copy_bytes(&a.local), value: copy_bytes(&a.value) }
}

/// Copy of an attribute list.
pub fn copy_attrs(v: &Vec<Attr>) -> (r: Vec<Attr>)
    ensures
        r.deep_view() == v.deep_view(),
{
    let mut r: Vec<Attr> = Vec::new();
    let mut i: usize = 0;
    while i < v.len()
        invariant
            0 <= i <= v@.len(),
            r@.len() == i,
            forall|j: int| 0 <= j < i ==> r@[j].deep_view() == v@[j].deep_view(),
        decreases v@.len() - i,
    {
        r.push(copy_attr(&v[i]));
        i = i + 1;
    }
    proof {
        assert(r.deep_view() =~= v.deep_view());
    }
    r
}

} // verus!
