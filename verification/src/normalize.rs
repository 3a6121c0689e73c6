//! Tree normalization: drops comments and whitespace-only text, trims text
//! nodes, and rebuilds the remaining structure unchanged. Matching always
//! runs on normalized trees.
use vstd::prelude::*;

use crate::bytes::{spec_trim, trim};
use crate::tree::{
    copy_attrs, copy_bytes, forest_model, lemma_forest_model_index, Node, NodeModel,
};

verus! {

/// What normalization keeps of one node, if anything.
pub open spec fn spec_normalize(m: NodeModel) -> Option<NodeModel>
    decreases m,
{
    match m {
        NodeModel::Document { children } => Some(
            NodeModel::Document { children: spec_norm_children(children) },
        ),
        NodeModel::Doctype { name, public_id, system_id } => Some(
            NodeModel::Doctype { name, public_id, system_id },
        ),
        NodeModel::Element { ns, local, attrs, children } => Some(
            NodeModel::Element { ns, local, attrs, children: spec_norm_children(children) },
        ),
        NodeModel::Text { text } => if spec_trim(text).len() == 0 {
            None
        } else {
            Some(NodeModel::Text { text: spec_trim(text) })
        },
        NodeModel::Comment => None,
    }
}

/// Normalization of a children list: each child normalized, dropped ones gone.
pub open spec fn spec_norm_children(cs: Seq<NodeModel>) -> Seq<NodeModel>
    decreases cs,
{
    if cs.len() == 0 {
        Seq::empty()
    } else {
        (match spec_normalize(cs[0]) {
            Some(n) => seq![n],
            None => Seq::empty(),
        }) + spec_norm_children(cs.subrange(1, cs.len() as int))
    }
}

/// Normalizing a concatenation normalizes the parts.
pub proof fn lemma_norm_children_concat(a: Seq<NodeModel>, b: Seq<NodeModel>)
    ensures
        spec_norm_children(a + b) == spec_norm_children(a) + spec_norm_children(b),
    decreases a.len(),
{
    if a.len() == 0 {
        assert(a + b =~= b);
        assert(spec_norm_children(a) + spec_norm_children(b) =~= spec_norm_children(b));
    } else {
        assert((a + b)[0] == a[0]);
        assert((a + b).subrange(1, (a + b).len() as int) =~= a.subrange(1, a.len() as int) + b);
        lemma_norm_children_concat(a.subrange(1, a.len() as int), b);
        assert(spec_norm_children(a + b) =~= spec_norm_children(a) + spec_norm_children(b));
    }
}

proof fn lemma_norm_children_singleton(x: NodeModel)
    ensures
        spec_norm_children(seq![x]) == match spec_normalize(x) {
            Some(n) => seq![n],
            None => Seq::<NodeModel>::empty(),
        },
{
    assert(seq![x].subrange(1, 1) =~= Seq::<NodeModel>::empty());
    assert(spec_norm_children(Seq::<NodeModel>::empty()) =~= Seq::<NodeModel>::empty());
    match spec_normalize(x) {
        Some(n) => {
            assert(spec_norm_children(seq![x]) =~= seq![n]);
        },
        None => {
            assert(spec_norm_children(seq![x]) =~= Seq::<NodeModel>::empty());
        },
    }
}

/// Normalizes a children list.
fn normalize_children(v: &Vec<Node>) -> (r: Vec<Node>)
    ensures
        r.deep_view() == spec_norm_children(forest_model(v@)),
    decreases v@,
{
    let ghost fm = forest_model(v@);
    proof {
        lemma_forest_model_index(v@);
    }
    let mut r: Vec<Node> = Vec::new();
    let mut i: usize = 0;
    while i < v.len()
        invariant
            0 <= i <= v@.len(),
            fm == forest_model(v@),
            fm.len() == v@.len(),
            forall|j: int| 0 <= j < v@.len() ==> fm[j] == v@[j].deep_view(),
            r.deep_view() == spec_norm_children(fm.take(i as int)),
        decreases v@.len() - i,
    {
        let ghost pre = r.deep_view();
        match normalize(&v[i]) {
            Some(x) => {
                r.push(x);
                proof {
                    assert(r.deep_view() =~= pre.push(x.deep_view()));
                }
            },
            None => {},
        }
        proof {
            assert(fm.take(i + 1) =~= fm.take(i as int) + seq![fm[i as int]]);
            lemma_norm_children_concat(fm.take(i as int), seq![fm[i as int]]);
            lemma_norm_children_singleton(fm[i as int]);
            assert(r.deep_view() =~= spec_norm_children(fm.take(i + 1)));
        }
        i = i + 1;
    }
    proof {
        assert(fm.take(v@.len() as int) =~= fm);
    }
    r
}

/// Normalizes one node; `None` means the node is dropped.
pub fn normalize(n: &Node) -> (r: Option<Node>)
    ensures
        match r {
            Some(x) => spec_normalize(n.deep_view()) == Some(x.deep_view()),
            None => spec_normalize(n.deep_view()) is None,
        },
    decreases *n,
{
    match n {
        Node::Document { children } => {
            let cs = normalize_children(children);
            proof {
                crate::tree::lemma_vec_node_forest_model(cs);
            }
            Some(Node::Document { children: cs })
        },
        Node::Doctype { name, public_id, system_id } => Some(
            Node::Doctype {
                name: copy_bytes(name),
                public_id: copy_bytes(public_id),
                system_id: copy_bytes(system_id),
            },
        ),
        Node::Element { ns, local, attrs, children } => {
            let cs = normalize_children(children);
            proof {
                crate::tree::lemma_vec_node_forest_model(cs);
            }
            Some(
                Node::Element {
                    ns: copy_bytes(ns),
                    local: copy_bytes(local),
                    attrs: copy_attrs(attrs),
                    children: cs,
                },
            )
        },
        Node::Text { text } => {
            let t = trim(text.as_slice());
            if t.len() == 0 {
                None
            } else {
                Some(Node::Text { text: t })
            }
        },
        Node::Comment => None,
    }
}

/// Re-normalizing a normalized tree changes nothing (idempotence).
pub proof fn lemma_normalize_idempotent(m: NodeModel)
    ensures
        spec_normalize(m) matches Some(n) ==> spec_normalize(n) == Some(n),
    decreases m, 1int,
{
    match m {
        NodeModel::Document { children } => {
            lemma_norm_children_idempotent(children);
        },
        NodeModel::Element { ns, local, attrs, children } => {
            lemma_norm_children_idempotent(children);
        },
        NodeModel::Text { text } => {
            crate::bytes::lemma_trim_idempotent(text);
        },
        _ => {},
    }
}

/// Re-normalizing a normalized children list changes nothing.
pub proof fn lemma_norm_children_idempotent(cs: Seq<NodeModel>)
    ensures
        spec_norm_children(spec_norm_children(cs)) == spec_norm_children(cs),
    decreases cs, 0int,
{
    if cs.len() == 0 {
    } else {
        let rest = cs.subrange(1, cs.len() as int);
        lemma_norm_children_idempotent(rest);
        match spec_normalize(cs[0]) {
            Some(n0) => {
                lemma_normalize_idempotent(cs[0]);
                lemma_norm_children_concat(seq![n0], spec_norm_children(rest));
                lemma_norm_children_singleton(n0);
                assert(spec_norm_children(cs) == seq![n0] + spec_norm_children(rest));
            },
            None => {
                assert(spec_norm_children(cs) =~= spec_norm_children(rest));
            },
        }
    }
}

/// Surrounding whitespace on a text node does not survive normalization:
/// two text nodes that agree after trimming normalize alike.
pub proof fn lemma_norm_text_trim_invariant(a: Seq<u8>, b: Seq<u8>)
    requires
        spec_trim(a) == spec_trim(b),
    ensures
        spec_normalize(NodeModel::Text { text: a }) == spec_normalize(NodeModel::Text { text: b }),
{
}

/// Whitespace-only text between siblings does not survive normalization:
/// inserting such a node anywhere in a children list leaves the normalized
/// list unchanged.
pub proof fn lemma_norm_children_whitespace_irrelevant(
    xs: Seq<NodeModel>,
    ys: Seq<NodeModel>,
    t: Seq<u8>,
)
    requires
        spec_trim(t).len() == 0,
    ensures
        spec_norm_children(xs + seq![NodeModel::Text { text: t }] + ys) == spec_norm_children(
            xs + ys,
        ),
{
    lemma_norm_children_concat(xs + seq![NodeModel::Text { text: t }], ys);
    lemma_norm_children_concat(xs, seq![NodeModel::Text { text: t }]);
    lemma_norm_children_singleton(NodeModel::Text { text: t });
    lemma_norm_children_concat(xs, ys);
    assert(spec_norm_children(xs + seq![NodeModel::Text { text: t }]) =~= spec_norm_children(xs));
}

} // verus!
