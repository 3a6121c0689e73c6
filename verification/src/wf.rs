//! Well-formedness of pattern trees, checked once at construction. A
//! whole-subtree placeholder must be the sole child of its parent and may
//! not stand in an attribute value; every `{{` of a template must be closed.
//! Matching itself is total, so these are the only pattern shapes whose
//! meaning would be surprising; they are rejected up front.
use vstd::prelude::*;

use crate::attrs::spec_attr_template;
use crate::bytes::{contains_sub, spec_contains, spec_trim, trim};
use crate::lexicon::{
    close_braces, is_var, open_braces, spec_is_var, CLOSE_BRACES, OPEN_BRACES,
};
use crate::matcher::s_whole_var;
use crate::text::{scan_template, spec_scan};
use crate::tree::{forest_model, Attr, AttrModel, Node, NodeModel};

verus! {

/// A pattern text node is well formed when, if it reads as a template, every
/// `{{` in it is closed.
pub open spec fn wf_text(t: Seq<u8>) -> bool {
    (spec_contains(spec_trim(t), open_braces()) && spec_contains(spec_trim(t), close_braces()))
        ==> spec_scan(spec_trim(t)) is Some
}

/// A pattern attribute value is well formed when it is not a whole-subtree
/// placeholder and, if it reads as a template, every `{{` in it is closed.
pub open spec fn wf_attr_value(v: Seq<u8>) -> bool {
    match spec_is_var(v) {
        Some(nv) => !nv.1,
        None => spec_attr_template(v) ==> spec_scan(v) is Some,
    }
}

pub open spec fn wf_attrs(attrs: Seq<AttrModel>) -> bool {
    forall|i: int| 0 <= i < attrs.len() ==> wf_attr_value(#[trigger] attrs[i].value)
}

/// A pattern node is well formed when all its text, attribute values and
/// children are.
pub open spec fn wf_pattern(m: NodeModel) -> bool
    decreases m, 0int,
{
    match m {
        NodeModel::Document { children } => wf_forest(children),
        NodeModel::Element { attrs, children, .. } => wf_attrs(attrs) && wf_forest(children),
        NodeModel::Text { text } => wf_text(text),
        _ => true,
    }
}

/// A children list is well formed when a whole-subtree placeholder in it is
/// the sole child, and each child is well formed.
pub open spec fn wf_forest(cs: Seq<NodeModel>) -> bool
    decreases cs, 1int,
{
    (forall|i: int| 0 <= i < cs.len() ==> s_whole_var(#[trigger] cs[i]) is None || cs.len() == 1)
        && wf_each(cs)
}

pub open spec fn wf_each(cs: Seq<NodeModel>) -> bool
    decreases cs, 0int,
{
    if cs.len() == 0 {
        true
    } else {
        wf_pattern(cs[0]) && wf_each(cs.subrange(1, cs.len() as int))
    }
}

fn check_text(t: &Vec<u8>) -> (r: bool)
    ensures
        r == wf_text(t@),
{
    proof {
        assert(OPEN_BRACES@ =~= open_braces());
        assert(CLOSE_BRACES@ =~= close_braces());
    }
    let tt = trim(t.as_slice());
    if contains_sub(tt.as_slice(), OPEN_BRACES.as_slice()) && contains_sub(
        tt.as_slice(),
        CLOSE_BRACES.as_slice(),
    ) {
        scan_template(tt.as_slice()).is_some()
    } else {
        true
    }
}

fn check_attr_value(v: &Vec<u8>) -> (r: bool)
    ensures
        r == wf_attr_value(v@),
{
    proof {
        assert(OPEN_BRACES@ =~= open_braces());
        assert(CLOSE_BRACES@ =~= close_braces());
    }
    match is_var(v.as_slice()) {
        Some(var) => !var.whole,
        None => {
            let x = crate::bytes::find_sub(v.as_slice(), OPEN_BRACES.as_slice());
            let y = crate::bytes::find_sub(v.as_slice(), CLOSE_BRACES.as_slice());
            let is_template = match (x, y) {
                (Some(xi), Some(yi)) => xi < yi,
                _ => false,
            };
            if is_template {
                scan_template(v.as_slice()).is_some()
            } else {
                true
            }
        },
    }
}

fn check_attrs(attrs: &Vec<Attr>) -> (r: bool)
    ensures
        r == wf_attrs(attrs.deep_view()),
{
    let mut i: usize = 0;
    while i < attrs.len()
        invariant
            0 <= i <= attrs@.len(),
            forall|j: int| 0 <= j < i ==> wf_attr_value(#[trigger] attrs.deep_view()[j].value),
        decreases attrs@.len() - i,
    {
        if !check_attr_value(&attrs[i].value) {
            proof {
                assert(!wf_attr_value(attrs.deep_view()[i as int].value));
            }
            return false;
        }
        proof {
            assert(attrs.deep_view()[i as int] == attrs@[i as int].deep_view());
        }
        i = i + 1;
    }
    true
}

/// Checks a pattern node for well-formedness.
pub fn check_pattern(n: &Node) -> (r: bool)
    ensures
        r == wf_pattern(n.deep_view()),
    decreases *n, 1int,
{
    match n {
        Node::Document { children } => {
            proof {
                crate::tree::lemma_vec_node_forest_model(*children);
            }
            check_forest(children)
        },
        Node::Element { attrs, children, .. } => {
            proof {
                crate::tree::lemma_vec_node_forest_model(*children);
            }
            check_attrs(attrs) && check_forest(children)
        },
        Node::Text { text } => check_text(text),
        _ => true,
    }
}

/// Checks a children list for well-formedness.
pub fn check_forest(children: &Vec<Node>) -> (r: bool)
    ensures
        r == wf_forest(forest_model(children@)),
    decreases children@, 0int,
{
    let ghost cm = forest_model(children@);
    proof {
        crate::tree::lemma_forest_model_index(children@);
    }
    let mut i: usize = 0;
    while i < children.len()
        invariant
            0 <= i <= children@.len(),
            cm == forest_model(children@),
            cm.len() == children@.len(),
            forall|j: int| 0 <= j < children@.len() ==> cm[j] == children@[j].deep_view(),
            forall|j: int| 0 <= j < i ==> s_whole_var(#[trigger] cm[j]) is None || cm.len() == 1,
            wf_each(cm.take(i as int)),
        decreases children@.len() - i,
    {
        if children.len() > 1 {
            match crate::matcher::whole_var_of(&children[i]) {
                Some(_) => {
                    proof {
                        assert(s_whole_var(cm[i as int]) is Some);
                    }
                    return false;
                },
                None => {},
            }
        }
        if !check_pattern(&children[i]) {
            proof {
                crate::wf::lemma_wf_each_prefix(cm, i as int);
            }
            return false;
        }
        proof {
            assert(cm.take(i + 1) =~= cm.take(i as int).push(cm[i as int]));
            lemma_wf_each_snoc(cm.take(i as int), cm[i as int]);
        }
        i = i + 1;
    }
    proof {
        assert(cm.take(cm.len() as int) =~= cm);
    }
    true
}

/// Appending a well-formed node to a well-formed list keeps it well formed.
proof fn lemma_wf_each_snoc(cs: Seq<NodeModel>, x: NodeModel)
    requires
        wf_each(cs),
        wf_pattern(x),
    ensures
        wf_each(cs.push(x)),
    decreases cs.len(),
{
    assert(wf_each(Seq::<NodeModel>::empty()));
    if cs.len() == 0 {
        assert(cs.push(x)[0] == x);
        assert(cs.push(x).subrange(1, 1) =~= Seq::<NodeModel>::empty());
        assert(wf_each(cs.push(x).subrange(1, 1)));
    } else {
        assert(wf_each(cs) == (wf_pattern(cs[0]) && wf_each(cs.subrange(1, cs.len() as int))));
        lemma_wf_each_snoc(cs.subrange(1, cs.len() as int), x);
        assert(cs.push(x).subrange(1, cs.push(x).len() as int) =~= cs.subrange(
            1,
            cs.len() as int,
        ).push(x));
        assert(cs.push(x)[0] == cs[0]);
    }
    assert(wf_each(cs.push(x)) == (wf_pattern(cs.push(x)[0]) && wf_each(
        cs.push(x).subrange(1, cs.push(x).len() as int),
    )));
}

/// A node of a list whose prefix is well formed but which is not itself well
/// formed makes the whole list ill formed.
pub proof fn lemma_wf_each_prefix(cs: Seq<NodeModel>, i: int)
    requires
        0 <= i < cs.len(),
        !wf_pattern(cs[i]),
    ensures
        !wf_each(cs),
    decreases i,
{
    if i == 0 {
    } else {
        lemma_wf_each_prefix(cs.subrange(1, cs.len() as int), i - 1);
        assert(cs.subrange(1, cs.len() as int)[i - 1] == cs[i]);
    }
}

} // verus!
