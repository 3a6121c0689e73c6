//! The tree matcher: enumerates every embedding of the pattern tree into the
//! document tree and yields one binding map per embedding, in traversal
//! order. Direct placements at a level come before descents into a child;
//! starting offsets are tried in ascending order; duplicates are kept, one
//! per embedding.
use vstd::prelude::*;

use crate::attrs::spec_match_attributes;
use crate::bindings::BindingMap;
use crate::bytes::spec_trim;
use crate::lexicon::{spec_is_skip, spec_is_special_attr, spec_is_var};
use crate::serialize::spec_serialize_forest;
use crate::text::spec_match_text;
use crate::tree::{
    elem_attrs, elem_local, elem_ns, forest_model, forest_size, lemma_children_size,
    lemma_forest_size_element, lemma_forest_size_skip_le, lemma_forest_size_skip_step, model_size,
    spec_children, text_of, Attr, AttrModel, Node, NodeModel,
};

verus! {

/// A binding map's model: variable name to captured text.
pub type BMap = Map<Seq<u8>, Seq<u8>>;

/// A pattern node that is a skip marker: a text node reading `...`.
pub open spec fn s_is_skip_node(p: NodeModel) -> bool {
    p is Text && spec_is_skip(text_of(p))
}

/// The name of a whole-subtree placeholder `{{name:*}}`, if `p` is one.
pub open spec fn s_whole_var(p: NodeModel) -> Option<Seq<u8>> {
    if p is Text {
        match spec_is_var(text_of(p)) {
            Some(nv) => if nv.1 {
                Some(nv.0)
            } else {
                None
            },
            None => None,
        }
    } else {
        None
    }
}

/// How many pattern nodes are not skip markers.
pub open spec fn s_non_skip_count(pl: Seq<NodeModel>) -> nat
    decreases pl.len(),
{
    if pl.len() == 0 {
        0nat
    } else {
        (if s_is_skip_node(pl[0]) {
            0nat
        } else {
            1nat
        }) + s_non_skip_count(pl.drop_first())
    }
}

/// Whether an element's attributes carry the special `subseq` attribute.
pub open spec fn spec_has_subseq(attrs: Seq<AttrModel>) -> bool {
    exists|i: int| 0 <= i < attrs.len() && spec_is_special_attr(#[trigger] attrs[i].local)
}

/// The bytes of `table`.
pub open spec fn table_name() -> Seq<u8> {
    seq![116u8, 97u8, 98u8, 108u8, 101u8]
}

/// The bytes of `tbody`.
pub open spec fn tbody_name() -> Seq<u8> {
    seq![116u8, 98u8, 111u8, 100u8, 121u8]
}

/// The pattern children an element is matched with. A pattern `<table>`
/// whose sole child is a `<tbody>` element stands for that `tbody`'s
/// children: HTML parsers insert `<tbody>` into documents, and patterns are
/// written without it.
pub open spec fn s_pattern_kids(p: NodeModel) -> Seq<NodeModel> {
    let cs = spec_children(p);
    if elem_local(p) == table_name() && cs.len() == 1 && cs[0] is Element && elem_local(cs[0])
        == tbody_name() {
        spec_children(cs[0])
    } else {
        cs
    }
}

/// All pairwise combinations of `m` with the maps of `bs`, `bs` winning on
/// name collisions.
pub open spec fn s_product_row(m: BMap, bs: Seq<BMap>) -> Seq<BMap>
    decreases bs.len(),
{
    if bs.len() == 0 {
        Seq::empty()
    } else {
        seq![m.union_prefer_right(bs[0])] + s_product_row(m, bs.drop_first())
    }
}

/// The Cartesian product of two binding lists, row by row; the right map
/// wins on name collisions.
pub open spec fn s_product(a: Seq<BMap>, bs: Seq<BMap>) -> Seq<BMap>
    decreases a.len(),
{
    if a.len() == 0 {
        Seq::empty()
    } else {
        s_product_row(a[0], bs) + s_product(a.drop_first(), bs)
    }
}

/// All bindings of matching the subtree at `d` against pattern `p`.
/// With `exact` the pattern must match at `d` itself; otherwise every
/// descendant of `d` is tried as well. A text pattern matches only a text
/// node, and never descends. A whole-subtree placeholder is meaningless at
/// node position (construction rejects it) and matches nothing.
pub open spec fn s_match_subtree(d: NodeModel, p: NodeModel, exact: bool) -> Seq<BMap>
    decreases model_size(d), model_size(p), 0int, 0int,
{
    if p is Text {
        match spec_is_var(text_of(p)) {
            Some(nv) => if nv.1 {
                Seq::empty()
            } else if d is Text {
                seq![Map::<Seq<u8>, Seq<u8>>::empty().insert(nv.0, spec_trim(text_of(d)))]
            } else {
                Seq::empty()
            },
            None => if d is Text {
                match spec_match_text(spec_trim(text_of(d)), spec_trim(text_of(p))) {
                    Some(m) => seq![m],
                    None => Seq::empty(),
                }
            } else {
                Seq::empty()
            },
        }
    } else {
        (if d is Doctype && p is Doctype {
            s_match_siblings(Seq::empty(), Seq::empty(), false)
        } else if d is Document && p is Document {
            s_match_siblings(spec_children(d), spec_children(p), false)
        } else if d is Element && p is Element && elem_ns(d) == elem_ns(p) && elem_local(d)
            == elem_local(p) {
            match spec_match_attributes(elem_attrs(d), elem_attrs(p)) {
                None => Seq::empty(),
                Some(m1) => s_product(
                    seq![m1],
                    s_match_siblings(
                        spec_children(d),
                        s_pattern_kids(p),
                        spec_has_subseq(elem_attrs(p)),
                    ),
                ),
            }
        } else {
            Seq::empty()
        }) + if !exact {
            s_subtree_kids(spec_children(d), p, 0)
        } else {
            Seq::empty()
        }
    }
}

/// The subtree matches of pattern `p` inside the document nodes `cs[i..]`.
pub open spec fn s_subtree_kids(cs: Seq<NodeModel>, p: NodeModel, i: int) -> Seq<BMap>
    decreases forest_size(cs), model_size(p), 1int, cs.len() - i,
    via s_subtree_kids_decreases
{
    if i < 0 || i >= cs.len() {
        Seq::empty()
    } else {
        s_match_subtree(cs[i], p, false) + s_subtree_kids(cs, p, i + 1)
    }
}

#[via_fn]
proof fn s_subtree_kids_decreases(cs: Seq<NodeModel>, p: NodeModel, i: int) {
    if 0 <= i < cs.len() {
        lemma_forest_size_element(cs, i);
    }
}

/// All bindings of matching the sibling pattern `pl` somewhere within the
/// sibling list `dl`: an empty pattern has one trivial embedding; a sole
/// whole-subtree placeholder captures the serialized run; otherwise direct
/// placements at this level come first (every starting offset in order, or a
/// single subsequence alignment), then placements wholly inside one child.
pub open spec fn s_match_siblings(dl: Seq<NodeModel>, pl: Seq<NodeModel>, subseq: bool) -> Seq<
    BMap,
>
    decreases forest_size(dl), forest_size(pl), 3int, 0int,
{
    if pl.len() == 0 {
        seq![Map::<Seq<u8>, Seq<u8>>::empty()]
    } else if dl.len() == 0 {
        Seq::empty()
    } else if pl.len() == 1 && s_whole_var(pl[0]) is Some {
        seq![
            Map::<Seq<u8>, Seq<u8>>::empty().insert(
                s_whole_var(pl[0])->Some_0,
                spec_serialize_forest(dl),
            ),
        ]
    } else {
        (if subseq {
            s_match_direct(dl, pl, subseq)
        } else {
            s_direct_starts(dl, pl, subseq, 0)
        }) + s_descend_each(dl, pl, subseq, 0)
    }
}

/// Direct placements of `pl` at each starting offset `i, i+1, …` of `dl`.
pub open spec fn s_direct_starts(dl: Seq<NodeModel>, pl: Seq<NodeModel>, subseq: bool, i: int) -> Seq<
    BMap,
>
    decreases forest_size(dl), forest_size(pl), 2int, dl.len() - i,
    via s_direct_starts_decreases
{
    if i < 0 || i >= dl.len() {
        Seq::empty()
    } else {
        s_match_direct(dl.skip(i), pl, subseq) + s_direct_starts(dl, pl, subseq, i + 1)
    }
}

#[via_fn]
proof fn s_direct_starts_decreases(dl: Seq<NodeModel>, pl: Seq<NodeModel>, subseq: bool, i: int) {
    if 0 <= i < dl.len() {
        lemma_forest_size_skip_le(dl, 0, i);
        assert(dl.skip(0) =~= dl);
    }
}

/// The whole sibling pattern matched inside each single child `dl[i]`.
pub open spec fn s_descend_each(dl: Seq<NodeModel>, pl: Seq<NodeModel>, subseq: bool, i: int) -> Seq<
    BMap,
>
    decreases forest_size(dl), forest_size(pl), 2int, dl.len() - i,
    via s_descend_each_decreases
{
    if i < 0 || i >= dl.len() {
        Seq::empty()
    } else {
        s_match_descendants(dl[i], pl, subseq) + s_descend_each(dl, pl, subseq, i + 1)
    }
}

#[via_fn]
proof fn s_descend_each_decreases(dl: Seq<NodeModel>, pl: Seq<NodeModel>, subseq: bool, i: int) {
    if 0 <= i < dl.len() {
        lemma_forest_size_element(dl, i);
    }
}

/// The sibling pattern matched among the children of one document node.
pub open spec fn s_match_descendants(d: NodeModel, pl: Seq<NodeModel>, subseq: bool) -> Seq<BMap>
    decreases model_size(d), forest_size(pl), 0int, 0int,
    via s_match_descendants_decreases
{
    if pl.len() == 0 {
        seq![Map::<Seq<u8>, Seq<u8>>::empty()]
    } else {
        s_match_siblings(spec_children(d), pl, subseq)
    }
}

#[via_fn]
proof fn s_match_descendants_decreases(d: NodeModel, pl: Seq<NodeModel>, subseq: bool) {
    lemma_children_size(d);
}

/// Aligns pattern nodes with document nodes one to one from the front. A
/// skip marker absorbs any number of document nodes; other pattern nodes
/// must match the document node at their position exactly. With `subseq`,
/// document nodes may also be passed over without consuming pattern nodes.
pub open spec fn s_match_direct(dl: Seq<NodeModel>, pl: Seq<NodeModel>, subseq: bool) -> Seq<BMap>
    decreases forest_size(dl), forest_size(pl), 1int, 0int,
    via s_match_direct_decreases
{
    let nsk = s_non_skip_count(pl);
    if nsk == 0 {
        seq![Map::<Seq<u8>, Seq<u8>>::empty()]
    } else if nsk > dl.len() {
        Seq::empty()
    } else if s_is_skip_node(pl[0]) {
        s_skip_starts(dl, pl.drop_first(), subseq, 0)
    } else {
        (if s_match_subtree(dl[0], pl[0], true).len() > 0 {
            s_product(
                s_match_subtree(dl[0], pl[0], true),
                s_match_direct(dl.drop_first(), pl.drop_first(), subseq),
            )
        } else {
            Seq::empty()
        }) + if subseq {
            s_match_direct(dl.drop_first(), pl, subseq)
        } else {
            Seq::empty()
        }
    }
}

#[via_fn]
proof fn s_match_direct_decreases(dl: Seq<NodeModel>, pl: Seq<NodeModel>, subseq: bool) {
    let nsk = s_non_skip_count(pl);
    if nsk != 0 && nsk <= dl.len() {
        lemma_forest_size_element(dl, 0);
        lemma_forest_size_element(pl, 0);
        lemma_forest_size_skip_step(dl, 0);
        lemma_forest_size_skip_step(pl, 0);
        assert(dl.drop_first() =~= dl.skip(1));
        assert(pl.drop_first() =~= pl.skip(1));
        assert(dl.skip(0) =~= dl);
        assert(pl.skip(0) =~= pl);
    }
}

/// After a skip marker, matching continues at each offset `i, i+1, …`.
pub open spec fn s_skip_starts(dl: Seq<NodeModel>, plt: Seq<NodeModel>, subseq: bool, i: int) -> Seq<
    BMap,
>
    decreases forest_size(dl), forest_size(plt), 2int, dl.len() - i,
    via s_skip_starts_decreases
{
    if i < 0 || i >= dl.len() {
        Seq::empty()
    } else {
        s_match_direct(dl.skip(i), plt, subseq) + s_skip_starts(dl, plt, subseq, i + 1)
    }
}

#[via_fn]
proof fn s_skip_starts_decreases(dl: Seq<NodeModel>, plt: Seq<NodeModel>, subseq: bool, i: int) {
    if 0 <= i < dl.len() {
        lemma_forest_size_skip_le(dl, 0, i);
        assert(dl.skip(0) =~= dl);
    }
}

/// A one-element result list.
fn one_map(m: BindingMap) -> (r: Vec<BindingMap>)
    ensures
        r.deep_view() == seq![m@],
{
    let ghost mv = m@;
    let mut r: Vec<BindingMap> = Vec::new();
    r.push(m);
    proof {
        assert(r.deep_view() =~= seq![mv]);
    }
    r
}

/// An empty result list.
fn empty_maps() -> (r: Vec<BindingMap>)
    ensures
        r.deep_view() == Seq::<BMap>::empty(),
{
    let r: Vec<BindingMap> = Vec::new();
    proof {
        assert(r.deep_view() =~= Seq::<BMap>::empty());
    }
    r
}

/// Appends all maps of `more` to `ret`.
fn append_maps(ret: &mut Vec<BindingMap>, more: Vec<BindingMap>)
    ensures
        final(ret).deep_view() == old(ret).deep_view() + more.deep_view(),
{
    let ghost predv = ret.deep_view();
    let ghost prev = ret@;
    let ghost moredv = more.deep_view();
    let ghost morev = more@;
    let mut more = more;
    ret.append(&mut more);
    proof {
        assert forall|i: int| 0 <= i < ret.deep_view().len() implies ret.deep_view()[i] == (predv
            + moredv)[i] by {
            if i < prev.len() {
                assert(ret@[i] == prev[i]);
            } else {
                assert(ret@[i] == morev[i - prev.len()]);
            }
        }
        assert(ret.deep_view() =~= predv + moredv);
    }
}

/// Whether this pattern node is a skip marker.
fn is_skip_marker(n: &Node) -> (r: bool)
    ensures
        r == s_is_skip_node(n.deep_view()),
{
    match n {
        Node::Text { text } => crate::lexicon::is_skip(text.as_slice()),
        _ => false,
    }
}

/// The name of a whole-subtree placeholder, if this pattern node is one.
pub fn whole_var_of(n: &Node) -> (r: Option<Vec<u8>>)
    ensures
        match r {
            Some(nm) => s_whole_var(n.deep_view()) == Some(nm@),
            None => s_whole_var(n.deep_view()) is None,
        },
{
    match n {
        Node::Text { text } => match crate::lexicon::is_var(text.as_slice()) {
            Some(v) => if v.whole {
                Some(v.name)
            } else {
                None
            },
            None => None,
        },
        _ => None,
    }
}

/// Counts the pattern nodes from `i` on that are not skip markers.
fn non_skip_from(pattern: &[Node], i: usize) -> (r: usize)
    requires
        i <= pattern@.len(),
    ensures
        r == s_non_skip_count(forest_model(pattern@).skip(i as int)),
        r <= pattern@.len() - i,
    decreases pattern@.len() - i,
{
    let ghost pm = forest_model(pattern@);
    proof {
        crate::tree::lemma_forest_model_index(pattern@);
    }
    if i == pattern.len() {
        proof {
            assert(pm.skip(i as int) =~= Seq::<NodeModel>::empty());
        }
        0
    } else {
        proof {
            assert(pm.skip(i as int)[0] == pm[i as int]);
            assert(pm.skip(i as int).drop_first() =~= pm.skip(i + 1));
        }
        let rest = non_skip_from(pattern, i + 1);
        if is_skip_marker(&pattern[i]) {
            rest
        } else {
            1 + rest
        }
    }
}

/// Whether the special `subseq` attribute is present.
fn has_subseq(attrs: &Vec<Attr>) -> (r: bool)
    ensures
        r == spec_has_subseq(attrs.deep_view()),
{
    let mut i: usize = 0;
    while i < attrs.len()
        invariant
            0 <= i <= attrs@.len(),
            forall|j: int|
                0 <= j < i ==> !spec_is_special_attr(#[trigger] attrs.deep_view()[j].local),
        decreases attrs@.len() - i,
    {
        if crate::lexicon::is_special_attr(attrs[i].local.as_slice()) {
            proof {
                assert(spec_is_special_attr(attrs.deep_view()[i as int].local));
            }
            return true;
        }
        proof {
            assert(attrs.deep_view()[i as int] == attrs@[i as int].deep_view());
        }
        i = i + 1;
    }
    false
}

/// All combinations of `m` with the maps of `bs`.
fn product_row(m: &BindingMap, bs: &Vec<BindingMap>) -> (r: Vec<BindingMap>)
    ensures
        r.deep_view() == s_product_row(m@, bs.deep_view()),
{
    let ghost bdv = bs.deep_view();
    let mut r: Vec<BindingMap> = Vec::new();
    proof {
        assert(bdv.skip(0) =~= bdv);
        assert(r.deep_view() =~= Seq::<BMap>::empty());
    }
    let mut j: usize = 0;
    while j < bs.len()
        invariant
            0 <= j <= bs@.len(),
            bdv == bs.deep_view(),
            s_product_row(m@, bdv) =~= r.deep_view() + s_product_row(m@, bdv.skip(j as int)),
        decreases bs@.len() - j,
    {
        let ghost predv = r.deep_view();
        let mut c = m.duplicate();
        c.merge_from(&bs[j]);
        let ghost cv = c@;
        r.push(c);
        proof {
            assert(bs@[j as int].deep_view() == bdv[j as int]);
            assert(cv == m@.union_prefer_right(bdv[j as int]));
            assert(r.deep_view() =~= predv.push(cv));
            assert(bdv.skip(j as int)[0] == bdv[j as int]);
            assert(bdv.skip(j as int).drop_first() =~= bdv.skip(j + 1));
            assert(s_product_row(m@, bdv) =~= r.deep_view() + s_product_row(m@, bdv.skip(j + 1)));
        }
        j = j + 1;
    }
    proof {
        assert(bdv.skip(bdv.len() as int) =~= Seq::<BMap>::empty());
        assert(s_product_row(m@, bdv) =~= r.deep_view());
    }
    r
}

/// The Cartesian product of two binding lists, merging pairwise; the right
/// map wins on collisions.
pub fn map_product(a: &Vec<BindingMap>, bs: &Vec<BindingMap>) -> (r: Vec<BindingMap>)
    ensures
        r.deep_view() == s_product(a.deep_view(), bs.deep_view()),
{
    let ghost adv = a.deep_view();
    let mut r: Vec<BindingMap> = Vec::new();
    proof {
        assert(adv.skip(0) =~= adv);
        assert(r.deep_view() =~= Seq::<BMap>::empty());
    }
    let mut i: usize = 0;
    while i < a.len()
        invariant
            0 <= i <= a@.len(),
            adv == a.deep_view(),
            s_product(adv, bs.deep_view()) =~= r.deep_view() + s_product(
                adv.skip(i as int),
                bs.deep_view(),
            ),
        decreases a@.len() - i,
    {
        let row = product_row(&a[i], bs);
        proof {
            assert(a@[i as int].deep_view() == adv[i as int]);
            assert(adv.skip(i as int)[0] == adv[i as int]);
            assert(adv.skip(i as int).drop_first() =~= adv.skip(i + 1));
        }
        append_maps(&mut r, row);
        proof {
            assert(s_product(adv, bs.deep_view()) =~= r.deep_view() + s_product(
                adv.skip(i + 1),
                bs.deep_view(),
            ));
        }
        i = i + 1;
    }
    proof {
        assert(adv.skip(adv.len() as int) =~= Seq::<BMap>::empty());
        assert(s_product(adv, bs.deep_view()) =~= r.deep_view());
    }
    r
}

const TABLE_NAME: [u8; 5] = [116, 97, 98, 108, 101];

const TBODY_NAME: [u8; 5] = [116, 98, 111, 100, 121];

/// Matches the subtree at `doc` against the pattern node; with `exact` the
/// pattern must match `doc` itself, otherwise every descendant is tried too.
pub fn match_subtree(doc: &Node, pattern: &Node, exact: bool) -> (r: Vec<BindingMap>)
    ensures
        r.deep_view() == s_match_subtree(doc.deep_view(), pattern.deep_view(), exact),
    decreases model_size(doc.deep_view()), model_size(pattern.deep_view()), 0int,
{
    let ghost dmm = doc.deep_view();
    let ghost pmm = pattern.deep_view();
    if let Node::Text { text: ptext } = pattern {
        match crate::lexicon::is_var(ptext.as_slice()) {
            Some(v) => {
                if v.whole {
                    return empty_maps();
                }
                if let Node::Text { text: dtext } = doc {
                    let m = BindingMap::singleton(v.name, crate::bytes::trim(dtext.as_slice()));
                    return one_map(m);
                }
                return empty_maps();
            },
            None => {
                if let Node::Text { text: dtext } = doc {
                    let dt = crate::bytes::trim(dtext.as_slice());
                    let pt = crate::bytes::trim(ptext.as_slice());
                    match crate::text::match_text(dt.as_slice(), pt.as_slice()) {
                        Some(m) => {
                            return one_map(m);
                        },
                        None => {
                            return empty_maps();
                        },
                    }
                }
                return empty_maps();
            },
        }
    }
    let mut ret: Vec<BindingMap> = Vec::new();
    let pattern_is_doctype = matches!(pattern, Node::Doctype { .. });
    let pattern_is_document = matches!(pattern, Node::Document { .. });
    match doc {
        Node::Doctype { .. } => {
            if pattern_is_doctype {
                ret = one_map(BindingMap::new());
                proof {
                    assert(s_match_siblings(Seq::empty(), Seq::empty(), false) =~= seq![
                        Map::<Seq<u8>, Seq<u8>>::empty(),
                    ]);
                }
            }
        },
        Node::Document { children: dc } => {
            if pattern_is_document {
                if let Node::Document { children: pc } = pattern {
                    proof {
                        crate::tree::lemma_vec_node_forest_model(*dc);
                        crate::tree::lemma_vec_node_forest_model(*pc);
                        lemma_children_size(dmm);
                    }
                    ret = match_siblings(dc.as_slice(), pc.as_slice(), false);
                }
            }
        },
        Node::Element { ns: dns, local: dlocal, attrs: dattrs, children: dc } => {
            if let Node::Element { ns: pns, local: plocal, attrs: pattrs, children: pc } =
                pattern {
                if crate::bytes::bytes_eq(dns.as_slice(), pns.as_slice())
                    && crate::bytes::bytes_eq(dlocal.as_slice(), plocal.as_slice()) {
                    match crate::attrs::match_attributes(dattrs, pattrs) {
                        None => {},
                        Some(m1) => {
                            let sub = has_subseq(pattrs);
                            proof {
                                assert(TABLE_NAME@ =~= table_name());
                                assert(TBODY_NAME@ =~= tbody_name());
                                crate::tree::lemma_forest_model_index(pc@);
                            }
                            let mut pat_kids: &[Node] = pc.as_slice();
                            if crate::bytes::bytes_eq(plocal.as_slice(), TABLE_NAME.as_slice())
                                && pc.len() == 1 {
                                if let Node::Element { local: tlocal, children: tc, .. } = &pc[0] {
                                    if crate::bytes::bytes_eq(
                                        tlocal.as_slice(),
                                        TBODY_NAME.as_slice(),
                                    ) {
                                        pat_kids = tc.as_slice();
                                        proof {
                                            crate::tree::lemma_vec_node_forest_model(*tc);
                                        }
                                    }
                                }
                            }
                            proof {
                                crate::tree::lemma_vec_node_forest_model(*pc);
                                assert(forest_model(pat_kids@) == s_pattern_kids(pmm));
                                crate::tree::lemma_vec_node_forest_model(*dc);
                                lemma_children_size(dmm);
                            }
                            let m2 = match_siblings(dc.as_slice(), pat_kids, sub);
                            let heads1 = one_map(m1);
                            ret = map_product(&heads1, &m2);
                        },
                    }
                }
            }
        },
        _ => {},
    }
    let ghost arm = ret.deep_view();
    if !exact {
        match doc {
            Node::Document { children } | Node::Element { children, .. } => {
                let ghost cm = forest_model(children@);
                proof {
                    crate::tree::lemma_vec_node_forest_model(*children);
                    crate::tree::lemma_forest_model_index(children@);
                    lemma_children_size(dmm);
                }
                let mut i: usize = 0;
                while i < children.len()
                    invariant
                        0 <= i <= children@.len(),
                        cm == forest_model(children@),
                        cm == spec_children(dmm),
                        cm.len() == children@.len(),
                        forall|j: int| 0 <= j < children@.len() ==> cm[j] == children@[j].deep_view(),
                        forest_size(cm) < model_size(dmm),
                        dmm == doc.deep_view(),
                        pmm == pattern.deep_view(),
                        arm + s_subtree_kids(cm, pmm, 0) =~= ret.deep_view() + s_subtree_kids(
                            cm,
                            pmm,
                            i as int,
                        ),
                    decreases children@.len() - i,
                {
                    proof {
                        lemma_forest_size_element(cm, i as int);
                    }
                    let m = match_subtree(&children[i], pattern, false);
                    append_maps(&mut ret, m);
                    proof {
                        assert(arm + s_subtree_kids(cm, pmm, 0) =~= ret.deep_view()
                            + s_subtree_kids(cm, pmm, i + 1));
                    }
                    i = i + 1;
                }
                proof {
                    assert(s_subtree_kids(cm, pmm, children@.len() as int) =~= Seq::<BMap>::empty());
                    assert(ret.deep_view() =~= arm + s_subtree_kids(cm, pmm, 0));
                }
            },
            _ => {
                proof {
                    assert(spec_children(dmm) =~= Seq::<NodeModel>::empty());
                    assert(s_subtree_kids(spec_children(dmm), pmm, 0) =~= Seq::<BMap>::empty());
                    assert(ret.deep_view() =~= arm + s_subtree_kids(spec_children(dmm), pmm, 0));
                }
            },
        }
    }
    proof {
        if exact {
            assert(ret.deep_view() =~= arm + Seq::<BMap>::empty());
        }
    }
    ret
}

/// Matches the sibling pattern `pattern` within the sibling list `doc`.
pub fn match_siblings(doc: &[Node], pattern: &[Node], subseq: bool) -> (r: Vec<BindingMap>)
    ensures
        r.deep_view() == s_match_siblings(forest_model(doc@), forest_model(pattern@), subseq),
    decreases forest_size(forest_model(doc@)), forest_size(forest_model(pattern@)), 2int,
{
    let ghost dm = forest_model(doc@);
    let ghost pm = forest_model(pattern@);
    proof {
        crate::tree::lemma_forest_model_index(doc@);
        crate::tree::lemma_forest_model_index(pattern@);
    }
    if pattern.len() == 0 {
        return one_map(BindingMap::new());
    }
    if doc.len() == 0 {
        return empty_maps();
    }
    if pattern.len() == 1 {
        if let Some(name) = whole_var_of(&pattern[0]) {
            let mut buf: Vec<u8> = Vec::new();
            crate::serialize::serialize_slice_from(&mut buf, doc, 0);
            proof {
                assert(dm.skip(0) =~= dm);
                assert(buf@ =~= spec_serialize_forest(dm));
            }
            return one_map(BindingMap::singleton(name, buf));
        }
    }
    let mut ret: Vec<BindingMap> = Vec::new();
    if subseq {
        let m = match_siblings_direct(doc, pattern, subseq);
        append_maps(&mut ret, m);
    } else {
        proof {
            assert(ret.deep_view() =~= Seq::<BMap>::empty());
        }
        let mut i: usize = 0;
        while i < doc.len()
            invariant
                0 <= i <= doc@.len(),
                dm == forest_model(doc@),
                pm == forest_model(pattern@),
                dm.len() == doc@.len(),
                s_direct_starts(dm, pm, subseq, 0) =~= ret.deep_view() + s_direct_starts(
                    dm,
                    pm,
                    subseq,
                    i as int,
                ),
            decreases doc@.len() - i,
        {
            proof {
                crate::tree::lemma_forest_model_skip(doc@, i as int);
                lemma_forest_size_skip_le(dm, 0, i as int);
                assert(dm.skip(0) =~= dm);
            }
            let m = match_siblings_direct(&doc[i..doc.len()], pattern, subseq);
            append_maps(&mut ret, m);
            proof {
                assert(s_direct_starts(dm, pm, subseq, 0) =~= ret.deep_view() + s_direct_starts(
                    dm,
                    pm,
                    subseq,
                    i + 1,
                ));
            }
            i = i + 1;
        }
        proof {
            assert(s_direct_starts(dm, pm, subseq, doc@.len() as int) =~= Seq::<BMap>::empty());
            assert(ret.deep_view() =~= s_direct_starts(dm, pm, subseq, 0));
        }
    }
    let ghost first = ret.deep_view();
    let mut i: usize = 0;
    while i < doc.len()
        invariant
            0 <= i <= doc@.len(),
            dm == forest_model(doc@),
            pm == forest_model(pattern@),
            dm.len() == doc@.len(),
            forall|j: int| 0 <= j < doc@.len() ==> dm[j] == doc@[j].deep_view(),
            first + s_descend_each(dm, pm, subseq, 0) =~= ret.deep_view() + s_descend_each(
                dm,
                pm,
                subseq,
                i as int,
            ),
        decreases doc@.len() - i,
    {
        proof {
            lemma_forest_size_element(dm, i as int);
        }
        let m = match_descendants(&doc[i], pattern, subseq);
        append_maps(&mut ret, m);
        proof {
            assert(first + s_descend_each(dm, pm, subseq, 0) =~= ret.deep_view() + s_descend_each(
                dm,
                pm,
                subseq,
                i + 1,
            ));
        }
        i = i + 1;
    }
    proof {
        assert(s_descend_each(dm, pm, subseq, doc@.len() as int) =~= Seq::<BMap>::empty());
        assert(ret.deep_view() =~= first + s_descend_each(dm, pm, subseq, 0));
    }
    ret
}

/// Matches the sibling pattern among the children of one document node.
pub fn match_descendants(doc: &Node, pattern: &[Node], subseq: bool) -> (r: Vec<BindingMap>)
    ensures
        r.deep_view() == s_match_descendants(doc.deep_view(), forest_model(pattern@), subseq),
    decreases model_size(doc.deep_view()), forest_size(forest_model(pattern@)), 0int,
{
    let ghost dmm = doc.deep_view();
    let ghost pm = forest_model(pattern@);
    if pattern.len() == 0 {
        return one_map(BindingMap::new());
    }
    match doc {
        Node::Document { children } | Node::Element { children, .. } => {
            proof {
                crate::tree::lemma_vec_node_forest_model(*children);
                lemma_children_size(dmm);
            }
            match_siblings(children.as_slice(), pattern, subseq)
        },
        _ => {
            proof {
                assert(spec_children(dmm) =~= Seq::<NodeModel>::empty());
            }
            empty_maps()
        },
    }
}

/// Aligns pattern nodes with document nodes one to one from the front.
pub fn match_siblings_direct(doc: &[Node], pattern: &[Node], subseq: bool) -> (r: Vec<BindingMap>)
    ensures
        r.deep_view() == s_match_direct(forest_model(doc@), forest_model(pattern@), subseq),
    decreases forest_size(forest_model(doc@)), forest_size(forest_model(pattern@)), 1int,
{
    let ghost dm = forest_model(doc@);
    let ghost pm = forest_model(pattern@);
    proof {
        crate::tree::lemma_forest_model_index(doc@);
        crate::tree::lemma_forest_model_index(pattern@);
        assert(pm.skip(0) =~= pm);
    }
    let nsk = non_skip_from(pattern, 0);
    if nsk == 0 {
        return one_map(BindingMap::new());
    }
    if nsk > doc.len() {
        return empty_maps();
    }
    if is_skip_marker(&pattern[0]) {
        let ghost pmt = pm.drop_first();
        proof {
            crate::tree::lemma_forest_model_skip(pattern@, 1);
            assert(pm.drop_first() =~= pm.skip(1));
            lemma_forest_size_skip_step(pm, 0);
            crate::tree::lemma_model_size_pos(pm[0]);
        }
        let pattern_tail = &pattern[1..pattern.len()];
        let mut ret: Vec<BindingMap> = Vec::new();
        proof {
            assert(ret.deep_view() =~= Seq::<BMap>::empty());
        }
        let mut i: usize = 0;
        while i < doc.len()
            invariant
                0 <= i <= doc@.len(),
                dm == forest_model(doc@),
                pm == forest_model(pattern@),
                dm.len() == doc@.len(),
                pmt == pm.drop_first(),
                pmt == forest_model(pattern_tail@),
                forest_size(pmt) < forest_size(pm),
                s_skip_starts(dm, pmt, subseq, 0) =~= ret.deep_view() + s_skip_starts(
                    dm,
                    pmt,
                    subseq,
                    i as int,
                ),
            decreases doc@.len() - i,
        {
            proof {
                crate::tree::lemma_forest_model_skip(doc@, i as int);
                lemma_forest_size_skip_le(dm, 0, i as int);
                assert(dm.skip(0) =~= dm);
            }
            let m = match_siblings_direct(&doc[i..doc.len()], pattern_tail, subseq);
            append_maps(&mut ret, m);
            proof {
                assert(s_skip_starts(dm, pmt, subseq, 0) =~= ret.deep_view() + s_skip_starts(
                    dm,
                    pmt,
                    subseq,
                    i + 1,
                ));
            }
            i = i + 1;
        }
        proof {
            assert(s_skip_starts(dm, pmt, subseq, doc@.len() as int) =~= Seq::<BMap>::empty());
            assert(ret.deep_view() =~= s_skip_starts(dm, pmt, subseq, 0));
        }
        return ret;
    }
    proof {
        lemma_forest_size_element(dm, 0);
        lemma_forest_size_element(pm, 0);
        lemma_forest_size_skip_step(dm, 0);
        lemma_forest_size_skip_step(pm, 0);
        crate::tree::lemma_model_size_pos(dm[0]);
        crate::tree::lemma_model_size_pos(pm[0]);
        assert(dm.skip(0) =~= dm);
        assert(pm.skip(0) =~= pm);
        assert(dm.drop_first() =~= dm.skip(1));
        assert(pm.drop_first() =~= pm.skip(1));
        crate::tree::lemma_forest_model_skip(doc@, 1);
        crate::tree::lemma_forest_model_skip(pattern@, 1);
    }
    let heads = match_subtree(&doc[0], &pattern[0], true);
    let mut ret: Vec<BindingMap>;
    if heads.len() > 0 {
        let tails = match_siblings_direct(
            &doc[1..doc.len()],
            &pattern[1..pattern.len()],
            subseq,
        );
        ret = map_product(&heads, &tails);
        proof {
            assert(heads.deep_view().len() > 0);
        }
    } else {
        ret = Vec::new();
        proof {
            assert(heads.deep_view().len() == 0);
            assert(ret.deep_view() =~= Seq::<BMap>::empty());
        }
    }
    let ghost firstpart = ret.deep_view();
    if subseq {
        let m = match_siblings_direct(&doc[1..doc.len()], pattern, subseq);
        append_maps(&mut ret, m);
    }
    proof {
        if !subseq {
            assert(ret.deep_view() =~= firstpart + Seq::<BMap>::empty());
        }
    }
    ret
}

} // verus!
