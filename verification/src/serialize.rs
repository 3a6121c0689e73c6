//! Serialization of normalized trees back to HTML text, for whole-subtree
//! capture: element tags with their attributes, text as it stands, doctypes
//! and comments in their canonical forms. Void HTML elements are emitted
//! without a closing tag, as the parser's own serializer does.
use vstd::prelude::*;

use crate::bytes::bytes_eq;
use crate::tree::{forest_model, AttrModel, Node, NodeModel};

verus! {

/// The bytes of the HTML namespace URL.
pub open spec fn html_ns() -> Seq<u8> {
    seq![104u8, 116u8, 116u8, 112u8, 58u8, 47u8, 47u8, 119u8, 119u8, 119u8, 46u8, 119u8, 51u8, 46u8, 111u8, 114u8, 103u8, 47u8, 49u8, 57u8, 57u8, 57u8, 47u8, 120u8, 104u8, 116u8, 109u8, 108u8]
}

const HTML_NS: [u8; 28] = [104, 116, 116, 112, 58, 47, 47, 119, 119, 119, 46, 119, 51, 46, 111, 114, 103, 47, 49, 57, 57, 57, 47, 120, 104, 116, 109, 108];

const VOID_AREA: [u8; 4] = [97, 114, 101, 97];

const VOID_BASE: [u8; 4] = [98, 97, 115, 101];

const VOID_BASEFONT: [u8; 8] = [98, 97, 115, 101, 102, 111, 110, 116];

const VOID_BGSOUND: [u8; 7] = [98, 103, 115, 111, 117, 110, 100];

const VOID_BR: [u8; 2] = [98, 114];

const VOID_COL: [u8; 3] = [99, 111, 108];

const VOID_EMBED: [u8; 5] = [101, 109, 98, 101, 100];

const VOID_FRAME: [u8; 5] = [102, 114, 97, 109, 101];

const VOID_HR: [u8; 2] = [104, 114];

const VOID_IMG: [u8; 3] = [105, 109, 103];

const VOID_INPUT: [u8; 5] = [105, 110, 112, 117, 116];

const VOID_KEYGEN: [u8; 6] = [107, 101, 121, 103, 101, 110];

const VOID_LINK: [u8; 4] = [108, 105, 110, 107];

const VOID_META: [u8; 4] = [109, 101, 116, 97];

const VOID_PARAM: [u8; 5] = [112, 97, 114, 97, 109];

const VOID_SOURCE: [u8; 6] = [115, 111, 117, 114, 99, 101];

const VOID_TRACK: [u8; 5] = [116, 114, 97, 99, 107];

const VOID_WBR: [u8; 3] = [119, 98, 114];

/// A void HTML element: serialized without children and closing tag. The
/// names, as bytes in order: area, base, basefont, bgsound, br, col, embed,
/// frame, hr, img, input, keygen, link, meta, param, source, track, wbr.
pub open spec fn spec_is_void(ns: Seq<u8>, local: Seq<u8>) -> bool {
    ns == html_ns() && {
    ||| local == seq![97u8, 114u8, 101u8, 97u8]
    ||| local == seq![98u8, 97u8, 115u8, 101u8]
    ||| local == seq![98u8, 97u8, 115u8, 101u8, 102u8, 111u8, 110u8, 116u8]
    ||| local == seq![98u8, 103u8, 115u8, 111u8, 117u8, 110u8, 100u8]
    ||| local == seq![98u8, 114u8]
    ||| local == seq![99u8, 111u8, 108u8]
    ||| local == seq![101u8, 109u8, 98u8, 101u8, 100u8]
    ||| local == seq![102u8, 114u8, 97u8, 109u8, 101u8]
    ||| local == seq![104u8, 114u8]
    ||| local == seq![105u8, 109u8, 103u8]
    ||| local == seq![105u8, 110u8, 112u8, 117u8, 116u8]
    ||| local == seq![107u8, 101u8, 121u8, 103u8, 101u8, 110u8]
    ||| local == seq![108u8, 105u8, 110u8, 107u8]
    ||| local == seq![109u8, 101u8, 116u8, 97u8]
    ||| local == seq![112u8, 97u8, 114u8, 97u8, 109u8]
    ||| local == seq![115u8, 111u8, 117u8, 114u8, 99u8, 101u8]
    ||| local == seq![116u8, 114u8, 97u8, 99u8, 107u8]
    ||| local == seq![119u8, 98u8, 114u8]
    }
}

fn is_void(ns: &[u8], local: &[u8]) -> (r: bool)
    ensures
        r == spec_is_void(ns@, local@),
{
    proof {
        assert(HTML_NS@ =~= html_ns());
        assert(VOID_AREA@ =~= seq![97u8, 114u8, 101u8, 97u8]);
        assert(VOID_BASE@ =~= seq![98u8, 97u8, 115u8, 101u8]);
        assert(VOID_BASEFONT@ =~= seq![98u8, 97u8, 115u8, 101u8, 102u8, 111u8, 110u8, 116u8]);
        assert(VOID_BGSOUND@ =~= seq![98u8, 103u8, 115u8, 111u8, 117u8, 110u8, 100u8]);
        assert(VOID_BR@ =~= seq![98u8, 114u8]);
        assert(VOID_COL@ =~= seq![99u8, 111u8, 108u8]);
        assert(VOID_EMBED@ =~= seq![101u8, 109u8, 98u8, 101u8, 100u8]);
        assert(VOID_FRAME@ =~= seq![102u8, 114u8, 97u8, 109u8, 101u8]);
        assert(VOID_HR@ =~= seq![104u8, 114u8]);
        assert(VOID_IMG@ =~= seq![105u8, 109u8, 103u8]);
        assert(VOID_INPUT@ =~= seq![105u8, 110u8, 112u8, 117u8, 116u8]);
        assert(VOID_KEYGEN@ =~= seq![107u8, 101u8, 121u8, 103u8, 101u8, 110u8]);
        assert(VOID_LINK@ =~= seq![108u8, 105u8, 110u8, 107u8]);
        assert(VOID_META@ =~= seq![109u8, 101u8, 116u8, 97u8]);
        assert(VOID_PARAM@ =~= seq![112u8, 97u8, 114u8, 97u8, 109u8]);
        assert(VOID_SOURCE@ =~= seq![115u8, 111u8, 117u8, 114u8, 99u8, 101u8]);
        assert(VOID_TRACK@ =~= seq![116u8, 114u8, 97u8, 99u8, 107u8]);
        assert(VOID_WBR@ =~= seq![119u8, 98u8, 114u8]);
    }
    bytes_eq(ns, HTML_NS.as_slice()) && (bytes_eq(local, VOID_AREA.as_slice())
        || bytes_eq(local, VOID_BASE.as_slice())
        || bytes_eq(local, VOID_BASEFONT.as_slice())
        || bytes_eq(local, VOID_BGSOUND.as_slice())
        || bytes_eq(local, VOID_BR.as_slice())
        || bytes_eq(local, VOID_COL.as_slice())
        || bytes_eq(local, VOID_EMBED.as_slice())
        || bytes_eq(local, VOID_FRAME.as_slice())
        || bytes_eq(local, VOID_HR.as_slice())
        || bytes_eq(local, VOID_IMG.as_slice())
        || bytes_eq(local, VOID_INPUT.as_slice())
        || bytes_eq(local, VOID_KEYGEN.as_slice())
        || bytes_eq(local, VOID_LINK.as_slice())
        || bytes_eq(local, VOID_META.as_slice())
        || bytes_eq(local, VOID_PARAM.as_slice())
        || bytes_eq(local, VOID_SOURCE.as_slice())
        || bytes_eq(local, VOID_TRACK.as_slice())
        || bytes_eq(local, VOID_WBR.as_slice()))
}

/// The serialized form of one node.
pub open spec fn spec_serialize(m: NodeModel) -> Seq<u8>
    decreases m,
{
    match m {
        NodeModel::Document { children } => spec_serialize_forest(children),
        NodeModel::Doctype { name, public_id, system_id } => seq![60u8, 33u8, 68u8, 79u8, 67u8, 84u8, 89u8, 80u8, 69u8, 32u8] + name
            + seq![62u8],
        NodeModel::Element { ns, local, attrs, children } => seq![60u8] + local
            + spec_serialize_attrs(attrs) + seq![62u8] + if spec_is_void(ns, local) {
            Seq::<u8>::empty()
        } else {
            spec_serialize_forest(children) + seq![60u8, 47u8] + local + seq![62u8]
        },
        NodeModel::Text { text } => text,
        NodeModel::Comment => seq![60u8, 33u8, 45u8, 45u8, 45u8, 45u8, 62u8],
    }
}

/// The serialized forms of a forest, concatenated in order.
pub open spec fn spec_serialize_forest(s: Seq<NodeModel>) -> Seq<u8>
    decreases s,
{
    if s.len() == 0 {
        Seq::empty()
    } else {
        spec_serialize(s[0]) + spec_serialize_forest(s.subrange(1, s.len() as int))
    }
}

/// The serialized attribute list: ` name="value"` for each attribute.
pub open spec fn spec_serialize_attrs(attrs: Seq<AttrModel>) -> Seq<u8>
    decreases attrs.len(),
{
    if attrs.len() == 0 {
        Seq::empty()
    } else {
        seq![32u8] + attrs[0].local + seq![61u8, 34u8] + attrs[0].value + seq![34u8]
            + spec_serialize_attrs(attrs.drop_first())
    }
}

/// Appends `s` to `out`.
pub fn push_bytes(out: &mut Vec<u8>, s: &[u8])
    ensures
        final(out)@ == old(out)@ + s@,
{
    let mut i: usize = 0;
    while i < s.len()
        invariant
            0 <= i <= s@.len(),
            out@ =~= old(out)@ + s@.take(i as int),
        decreases s@.len() - i,
    {
        out.push(s[i]);
        proof {
            assert(old(out)@ + s@.take(i + 1) =~= (old(out)@ + s@.take(i as int)).push(
                s@[i as int],
            ));
        }
        i = i + 1;
    }
    proof {
        assert(s@.take(s@.len() as int) =~= s@);
    }
}

fn serialize_attrs_from(out: &mut Vec<u8>, attrs: &Vec<crate::tree::Attr>, i: usize)
    requires
        i <= attrs@.len(),
    ensures
        final(out)@ == old(out)@ + spec_serialize_attrs(attrs.deep_view().skip(i as int)),
    decreases attrs@.len() - i,
{
    let ghost al = attrs.deep_view().skip(i as int);
    if i == attrs.len() {
        proof {
            assert(out@ =~= out@ + spec_serialize_attrs(al));
        }
        return ;
    }
    proof {
        assert(al[0] == attrs.deep_view()[i as int]);
        assert(al.drop_first() =~= attrs.deep_view().skip(i + 1));
    }
    let space: [u8; 1] = [32];
    let eq_quote: [u8; 2] = [61, 34];
    let quote: [u8; 1] = [34];
    let a = &attrs[i];
    push_bytes(out, space.as_slice());
    push_bytes(out, a.local.as_slice());
    push_bytes(out, eq_quote.as_slice());
    push_bytes(out, a.value.as_slice());
    push_bytes(out, quote.as_slice());
    serialize_attrs_from(out, attrs, i + 1);
    proof {
        assert(space@ =~= seq![32u8]);
        assert(eq_quote@ =~= seq![61u8, 34u8]);
        assert(quote@ =~= seq![34u8]);
        assert(out@ =~= old(out)@ + spec_serialize_attrs(al));
    }
}

/// Appends the serialized form of `n` to `out`.
pub fn serialize_node(out: &mut Vec<u8>, n: &Node)
    ensures
        final(out)@ == old(out)@ + spec_serialize(n.deep_view()),
    decreases *n, 0int,
{
    match n {
        Node::Document { children } => {
            serialize_slice_from(out, children.as_slice(), 0);
            proof {
                assert(forest_model(children@).skip(0) =~= forest_model(children@));
            }
        },
        Node::Doctype { name, .. } => {
            let doctype_open: [u8; 10] = [60, 33, 68, 79, 67, 84, 89, 80, 69, 32];
            let gt: [u8; 1] = [62];
            push_bytes(out, doctype_open.as_slice());
            push_bytes(out, name.as_slice());
            push_bytes(out, gt.as_slice());
            proof {
                assert(doctype_open@ =~= seq![60u8, 33u8, 68u8, 79u8, 67u8, 84u8, 89u8, 80u8, 69u8, 32u8]);
                assert(gt@ =~= seq![62u8]);
                assert(out@ =~= old(out)@ + spec_serialize(n.deep_view()));
            }
        },
        Node::Element { ns, local, attrs, children } => {
            let lt: [u8; 1] = [60];
            let gt: [u8; 1] = [62];
            let lt_slash: [u8; 2] = [60, 47];
            push_bytes(out, lt.as_slice());
            push_bytes(out, local.as_slice());
            serialize_attrs_from(out, attrs, 0);
            push_bytes(out, gt.as_slice());
            proof {
                assert(lt@ =~= seq![60u8]);
                assert(gt@ =~= seq![62u8]);
                assert(lt_slash@ =~= seq![60u8, 47u8]);
                assert(attrs.deep_view().skip(0) =~= attrs.deep_view());
            }
            if !is_void(ns.as_slice(), local.as_slice()) {
                serialize_slice_from(out, children.as_slice(), 0);
                push_bytes(out, lt_slash.as_slice());
                push_bytes(out, local.as_slice());
                push_bytes(out, gt.as_slice());
                proof {
                    assert(forest_model(children@).skip(0) =~= forest_model(children@));
                    assert(out@ =~= old(out)@ + spec_serialize(n.deep_view()));
                }
            } else {
                proof {
                    assert(out@ =~= old(out)@ + spec_serialize(n.deep_view()));
                }
            }
        },
        Node::Text { text } => {
            push_bytes(out, text.as_slice());
        },
        Node::Comment => {
            let comment: [u8; 7] = [60, 33, 45, 45, 45, 45, 62];
            push_bytes(out, comment.as_slice());
            proof {
                assert(comment@ =~= seq![60u8, 33u8, 45u8, 45u8, 45u8, 45u8, 62u8]);
            }
        },
    }
}

/// Appends the serialized forms of the nodes of `s` from `i` on to `out`.
pub fn serialize_slice_from(out: &mut Vec<u8>, s: &[Node], i: usize)
    requires
        i <= s@.len(),
    ensures
        final(out)@ == old(out)@ + spec_serialize_forest(forest_model(s@).skip(i as int)),
    decreases s@, s@.len() - i,
{
    let ghost fm = forest_model(s@);
    proof {
        crate::tree::lemma_forest_model_index(s@);
    }
    if i == s.len() {
        proof {
            assert(fm.skip(i as int) =~= Seq::<NodeModel>::empty());
            assert(out@ =~= out@ + spec_serialize_forest(fm.skip(i as int)));
        }
        return ;
    }
    serialize_node(out, &s[i]);
    serialize_slice_from(out, s, i + 1);
    proof {
        assert(fm.skip(i as int)[0] == fm[i as int]);
        assert(fm.skip(i as int).subrange(1, fm.skip(i as int).len() as int) =~= fm.skip(i + 1));
        assert(out@ =~= old(out)@ + spec_serialize_forest(fm.skip(i as int)));
    }
}

} // verus!
