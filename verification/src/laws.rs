//! Laws of the matcher, stated over the same spec functions that the
//! executable functions are proved against: the boundary behaviors of
//! sibling matching (empty pattern, empty document, whole-subtree capture),
//! the vacuity of skip markers at either end of a sibling pattern, and that
//! every binding an embedding yields binds exactly the pattern's variable
//! names (so a pattern without variables yields only empty maps).
use vstd::prelude::*;

use crate::bytes::spec_find_from;
use crate::matcher::{
    s_is_skip_node, s_match_direct, s_match_descendants, s_match_siblings, s_match_subtree,
    s_non_skip_count, s_pattern_kids, s_product, s_product_row, s_skip_starts, s_subtree_kids,
    s_whole_var, s_direct_starts, s_descend_each, spec_has_subseq, BMap,
};
use crate::attrs::{spec_attr_lookup, spec_attr_template, spec_match_attributes};
use crate::bytes::{spec_contains, spec_starts_with, spec_trim};
use crate::lexicon::{close_braces, open_braces, spec_is_special_attr, spec_is_var};
use crate::serialize::spec_serialize_forest;
use crate::text::{spec_anchor, spec_bind, spec_match_text, spec_scan, spec_try};
use crate::tree::{
    elem_attrs, elem_local, elem_ns, forest_size, lemma_children_size, lemma_forest_size_element,
    lemma_forest_size_skip_le, lemma_forest_size_skip_step, model_size, spec_children, text_of,
    AttrModel, NodeModel,
};

verus! {

/// An empty document side admits no embedding of a non-empty sibling
/// pattern.
pub proof fn lemma_empty_document(pl: Seq<NodeModel>, subseq: bool)
    requires
        pl.len() > 0,
    ensures
        s_match_siblings(Seq::empty(), pl, subseq) == Seq::<BMap>::empty(),
{
}

/// An empty sibling pattern has exactly one trivial embedding, yielding the
/// empty binding map, whatever the document side holds.
pub proof fn lemma_empty_pattern(dl: Seq<NodeModel>, subseq: bool)
    ensures
        s_match_siblings(dl, Seq::empty(), subseq) == seq![Map::<Seq<u8>, Seq<u8>>::empty()],
{
}

/// Whole-subtree capture: a sibling pattern that is exactly one
/// `{{name:*}}` placeholder yields, against any non-empty sibling run, one
/// binding of that name to the serialized concatenation of the run.
pub proof fn lemma_whole_capture(dl: Seq<NodeModel>, p: NodeModel, subseq: bool)
    requires
        dl.len() > 0,
        s_whole_var(p) is Some,
    ensures
        s_match_siblings(dl, seq![p], subseq) == seq![
            Map::<Seq<u8>, Seq<u8>>::empty().insert(
                s_whole_var(p)->Some_0,
                spec_serialize_forest(dl),
            ),
        ],
{
    assert(seq![p][0] == p);
}

/// A skip marker does not change the count of non-skip pattern nodes.
proof fn lemma_non_skip_snoc(pl: Seq<NodeModel>, sk: NodeModel)
    requires
        s_is_skip_node(sk),
    ensures
        s_non_skip_count(pl.push(sk)) == s_non_skip_count(pl),
    decreases pl.len(),
{
    assert(s_non_skip_count(Seq::<NodeModel>::empty()) == 0);
    if pl.len() == 0 {
        assert(pl.push(sk)[0] == sk);
        assert(pl.push(sk).drop_first() =~= Seq::<NodeModel>::empty());
        assert(s_non_skip_count(pl.push(sk)) == 0 + s_non_skip_count(
            pl.push(sk).drop_first(),
        ));
    } else {
        lemma_non_skip_snoc(pl.drop_first(), sk);
        assert(pl.push(sk)[0] == pl[0]);
        assert(pl.push(sk).drop_first() =~= pl.drop_first().push(sk));
        assert(s_non_skip_count(pl.push(sk)) == (if s_is_skip_node(pl[0]) {
            0nat
        } else {
            1nat
        }) + s_non_skip_count(pl.push(sk).drop_first()));
        assert(s_non_skip_count(pl) == (if s_is_skip_node(pl[0]) {
            0nat
        } else {
            1nat
        }) + s_non_skip_count(pl.drop_first()));
    }
}

/// A skip marker at the end of a direct alignment is vacuous: once the rest
/// of the pattern is consumed it absorbs whatever document nodes remain,
/// exactly as an exhausted pattern does.
pub proof fn lemma_trailing_skip_direct(
    dl: Seq<NodeModel>,
    pl: Seq<NodeModel>,
    sk: NodeModel,
    subseq: bool,
)
    requires
        s_is_skip_node(sk),
    ensures
        s_match_direct(dl, pl.push(sk), subseq) == s_match_direct(dl, pl, subseq),
    decreases forest_size(dl), forest_size(pl), 1int, 0int,
{
    lemma_non_skip_snoc(pl, sk);
    let nsk = s_non_skip_count(pl);
    if nsk == 0 || nsk > dl.len() {
    } else {
        assert(pl.len() > 0);
        assert(dl.len() > 0);
        assert(pl.push(sk)[0] == pl[0]);
        proof_measure_facts(dl, pl);
        if s_is_skip_node(pl[0]) {
            assert(pl.push(sk).drop_first() =~= pl.drop_first().push(sk));
            lemma_trailing_skip_starts(dl, pl.drop_first(), sk, subseq, 0);
        } else {
            assert(pl.push(sk).drop_first() =~= pl.drop_first().push(sk));
            lemma_trailing_skip_direct(dl.drop_first(), pl.drop_first(), sk, subseq);
            if subseq {
                lemma_trailing_skip_direct(dl.drop_first(), pl, sk, subseq);
            }
        }
    }
}

/// Measure bookkeeping shared by the skip lemmas.
proof fn proof_measure_facts(dl: Seq<NodeModel>, pl: Seq<NodeModel>)
    requires
        dl.len() > 0,
        pl.len() > 0,
    ensures
        forest_size(dl.drop_first()) < forest_size(dl),
        forest_size(pl.drop_first()) < forest_size(pl),
        forall|i: int| 0 <= i <= dl.len() ==> forest_size(#[trigger] dl.skip(i)) <= forest_size(dl),
{
    lemma_forest_size_skip_step(dl, 0);
    lemma_forest_size_skip_step(pl, 0);
    crate::tree::lemma_model_size_pos(dl[0]);
    crate::tree::lemma_model_size_pos(pl[0]);
    assert(dl.skip(0) =~= dl);
    assert(pl.skip(0) =~= pl);
    assert(dl.drop_first() =~= dl.skip(1));
    assert(pl.drop_first() =~= pl.skip(1));
    assert forall|i: int| 0 <= i <= dl.len() implies forest_size(#[trigger] dl.skip(i))
        <= forest_size(dl) by {
        lemma_forest_size_skip_le(dl, 0, i);
    }
}

proof fn lemma_trailing_skip_starts(
    dl: Seq<NodeModel>,
    plt: Seq<NodeModel>,
    sk: NodeModel,
    subseq: bool,
    i: int,
)
    requires
        s_is_skip_node(sk),
    ensures
        s_skip_starts(dl, plt.push(sk), subseq, i) == s_skip_starts(dl, plt, subseq, i),
    decreases forest_size(dl), forest_size(plt), 2int, dl.len() - i,
{
    if i < 0 || i >= dl.len() {
    } else {
        lemma_forest_size_skip_le(dl, 0, i);
        assert(dl.skip(0) =~= dl);
        lemma_trailing_skip_direct(dl.skip(i), plt, sk, subseq);
        lemma_trailing_skip_starts(dl, plt, sk, subseq, i + 1);
    }
}

/// A skip marker at the end of a sibling pattern is vacuous: the matches of
/// `pl` with a trailing skip are exactly the matches of `pl`. The two
/// patterns that must stay out are the empty one (against an empty sibling
/// run, `[skip]` matches nothing while `[]` has its trivial embedding) and a
/// sole whole-subtree placeholder (whose capture only fires when it stands
/// alone).
pub proof fn lemma_trailing_skip_siblings(
    dl: Seq<NodeModel>,
    pl: Seq<NodeModel>,
    sk: NodeModel,
    subseq: bool,
)
    requires
        s_is_skip_node(sk),
        pl.len() > 0,
        !(pl.len() == 1 && s_whole_var(pl[0]) is Some),
    ensures
        s_match_siblings(dl, pl.push(sk), subseq) == s_match_siblings(dl, pl, subseq),
    decreases forest_size(dl), forest_size(pl), 3int, 0int,
{
    if dl.len() == 0 {
    } else {
        assert(pl.push(sk)[0] == pl[0]);
        proof_measure_facts(dl, pl);
        if subseq {
            lemma_trailing_skip_direct(dl, pl, sk, subseq);
        } else {
            lemma_trailing_skip_offsets(dl, pl, sk, subseq, 0);
        }
        lemma_trailing_skip_descend(dl, pl, sk, subseq, 0);
    }
}

proof fn lemma_trailing_skip_offsets(
    dl: Seq<NodeModel>,
    pl: Seq<NodeModel>,
    sk: NodeModel,
    subseq: bool,
    i: int,
)
    requires
        s_is_skip_node(sk),
    ensures
        s_direct_starts(dl, pl.push(sk), subseq, i) == s_direct_starts(dl, pl, subseq, i),
    decreases forest_size(dl), forest_size(pl), 2int, dl.len() - i,
{
    if i < 0 || i >= dl.len() {
    } else {
        lemma_forest_size_skip_le(dl, 0, i);
        assert(dl.skip(0) =~= dl);
        lemma_trailing_skip_direct(dl.skip(i), pl, sk, subseq);
        lemma_trailing_skip_offsets(dl, pl, sk, subseq, i + 1);
    }
}

proof fn lemma_trailing_skip_descend(
    dl: Seq<NodeModel>,
    pl: Seq<NodeModel>,
    sk: NodeModel,
    subseq: bool,
    i: int,
)
    requires
        s_is_skip_node(sk),
        pl.len() > 0,
        !(pl.len() == 1 && s_whole_var(pl[0]) is Some),
    ensures
        s_descend_each(dl, pl.push(sk), subseq, i) == s_descend_each(dl, pl, subseq, i),
    decreases forest_size(dl), forest_size(pl), 2int, dl.len() - i,
{
    if i < 0 || i >= dl.len() {
    } else {
        lemma_forest_size_element(dl, i);
        lemma_children_size(dl[i]);
        lemma_trailing_skip_siblings(spec_children(dl[i]), pl, sk, subseq);
        assert(s_match_descendants(dl[i], pl.push(sk), subseq) == s_match_descendants(
            dl[i],
            pl,
            subseq,
        ));
        lemma_trailing_skip_descend(dl, pl, sk, subseq, i + 1);
    }
}

/// The set of names in a name list.
pub open spec fn names_set(ns: Seq<Seq<u8>>) -> Set<Seq<u8>>
    decreases ns.len(),
{
    if ns.len() == 0 {
        Set::empty()
    } else {
        set![ns[0]].union(names_set(ns.drop_first()))
    }
}

/// The variable names a text pattern can bind: the placeholder's name, or
/// the hole names of a template.
pub open spec fn text_vars(t: Seq<u8>) -> Set<Seq<u8>> {
    match spec_is_var(t) {
        Some(nv) => set![nv.0],
        None => mtext_vars(spec_trim(t)),
    }
}

/// The variable names text matching can bind against pattern text `pt`.
pub open spec fn mtext_vars(pt: Seq<u8>) -> Set<Seq<u8>> {
    if spec_contains(pt, open_braces()) && spec_contains(pt, close_braces()) {
        match spec_scan(pt) {
            Some(ln) => names_set(ln.1),
            None => Set::empty(),
        }
    } else {
        Set::empty()
    }
}

/// The variable names the attribute matcher can bind.
pub open spec fn attr_vars(pa: Seq<AttrModel>) -> Set<Seq<u8>>
    decreases pa.len(),
{
    if pa.len() == 0 {
        Set::empty()
    } else {
        let a = pa[0];
        let rest = attr_vars(pa.drop_first());
        if spec_is_special_attr(a.local) {
            rest
        } else {
            (match spec_is_var(a.value) {
                Some(nv) => if nv.1 {
                    Set::<Seq<u8>>::empty()
                } else {
                    set![nv.0]
                },
                None => if spec_attr_template(a.value) {
                    mtext_vars(a.value)
                } else {
                    Set::<Seq<u8>>::empty()
                },
            }).union(rest)
        }
    }
}

/// The variable names of a pattern node: what any successful embedding of
/// it binds.
pub open spec fn pat_vars(p: NodeModel) -> Set<Seq<u8>>
    decreases model_size(p), 0int,
    via pat_vars_decreases
{
    match p {
        NodeModel::Text { text } => text_vars(text),
        NodeModel::Document { children } => list_vars(children),
        NodeModel::Element { attrs, .. } => attr_vars(attrs).union(
            list_vars(crate::matcher::s_pattern_kids(p)),
        ),
        _ => Set::empty(),
    }
}

#[via_fn]
proof fn pat_vars_decreases(p: NodeModel) {
    if p is Element {
        lemma_children_size(p);
        let cs = spec_children(p);
        let k = crate::matcher::s_pattern_kids(p);
        if k != cs {
            lemma_forest_size_element(cs, 0);
            lemma_children_size(cs[0]);
        }
    }
}

/// The variable names of a sibling pattern list.
pub open spec fn list_vars(pl: Seq<NodeModel>) -> Set<Seq<u8>>
    decreases forest_size(pl), 1int,
    via list_vars_decreases
{
    if pl.len() == 0 {
        Set::empty()
    } else {
        pat_vars(pl[0]).union(list_vars(pl.drop_first()))
    }
}

#[via_fn]
proof fn list_vars_decreases(pl: Seq<NodeModel>) {
    if pl.len() > 0 {
        lemma_forest_size_element(pl, 0);
        lemma_forest_size_skip_step(pl, 0);
        crate::tree::lemma_model_size_pos(pl[0]);
        assert(pl.skip(0) =~= pl);
        assert(pl.drop_first() =~= pl.skip(1));
    }
}

/// A successful anchored match yields one capture per hole.
proof fn lemma_anchor_len(doc: Seq<u8>, lits: Seq<Seq<u8>>)
    ensures
        spec_anchor(doc, lits) matches Some(caps) ==> caps.len() == lits.len() - 1,
    decreases lits.len(), 0int, 0int,
{
    if lits.len() > 1 && spec_starts_with(doc, lits[0]) {
        lemma_try_len(doc.skip(lits[0].len() as int), lits.drop_first(), doc.len() - lits[0].len());
    }
}

proof fn lemma_try_len(rest: Seq<u8>, lits: Seq<Seq<u8>>, k: int)
    ensures
        spec_try(rest, lits, k) matches Some(caps) ==> caps.len() == lits.len(),
    decreases lits.len(), 1int, k,
{
    if k >= 0 {
        lemma_anchor_len(rest.skip(k), lits);
        if !(spec_anchor(rest.skip(k), lits) is Some) && k > 0 {
            lemma_try_len(rest, lits, k - 1);
        }
    }
}

/// Binding names to captures, one per name, binds exactly the names.
proof fn lemma_bind_dom(ns: Seq<Seq<u8>>, cs: Seq<Seq<u8>>)
    requires
        ns.len() == cs.len(),
    ensures
        spec_bind(ns, cs).dom() == names_set(ns),
    decreases ns.len(),
{
    if ns.len() == 0 {
        assert(spec_bind(ns, cs).dom() =~= names_set(ns));
    } else {
        lemma_bind_dom(ns.drop_first(), cs.drop_first());
        assert(spec_bind(ns, cs).dom() =~= names_set(ns));
    }
}

/// A successful text match binds exactly the pattern text's variables.
pub proof fn lemma_match_text_dom(d: Seq<u8>, pt: Seq<u8>)
    ensures
        spec_match_text(d, pt) matches Some(m) ==> m.dom() == mtext_vars(pt),
{
    if spec_contains(pt, open_braces()) && spec_contains(pt, close_braces()) {
        match spec_scan(pt) {
            Some(ln) => {
                crate::text::lemma_scan_shape(pt);
                lemma_anchor_len(d, ln.0);
                match spec_anchor(d, ln.0) {
                    Some(caps) => {
                        lemma_bind_dom(ln.1, caps);
                    },
                    None => {},
                }
            },
            None => {},
        }
    } else {
        if d == pt {
            assert(spec_match_text(d, pt)->Some_0.dom() =~= mtext_vars(pt));
        }
    }
}

/// A successful attribute match binds exactly the pattern attributes'
/// variables.
pub proof fn lemma_match_attributes_dom(da: Seq<AttrModel>, pa: Seq<AttrModel>)
    ensures
        spec_match_attributes(da, pa) matches Some(m) ==> m.dom() == attr_vars(pa),
    decreases pa.len(),
{
    if pa.len() == 0 {
        match spec_match_attributes(da, pa) {
            Some(m) => {
                assert(m.dom() =~= attr_vars(pa));
            },
            None => {},
        }
    } else {
        let a = pa[0];
        let rest = pa.drop_first();
        lemma_match_attributes_dom(da, rest);
        match spec_match_attributes(da, pa) {
            Some(m) => {
                if spec_is_special_attr(a.local) {
                } else {
                    let dv = spec_attr_lookup(da, a.ns, a.local)->Some_0;
                    match spec_is_var(a.value) {
                        Some(nv) => {
                            assert(m.dom() =~= attr_vars(pa));
                        },
                        None => {
                            if spec_attr_template(a.value) {
                                lemma_match_text_dom(dv, a.value);
                                assert(m.dom() =~= attr_vars(pa));
                            } else {
                                assert(m.dom() =~= attr_vars(pa));
                            }
                        },
                    }
                }
            },
            None => {},
        }
    }
}

/// Every map of `s` binds exactly the names `vs`.
pub open spec fn all_doms(s: Seq<BMap>, vs: Set<Seq<u8>>) -> bool {
    forall|k: int| 0 <= k < s.len() ==> (#[trigger] s[k]).dom() == vs
}

proof fn lemma_all_doms_concat(a: Seq<BMap>, b: Seq<BMap>, vs: Set<Seq<u8>>)
    requires
        all_doms(a, vs),
        all_doms(b, vs),
    ensures
        all_doms(a + b, vs),
{
    assert forall|k: int| 0 <= k < (a + b).len() implies ((a + b)[k]).dom() == vs by {
        if k < a.len() {
            assert((a + b)[k] == a[k]);
        } else {
            assert((a + b)[k] == b[k - a.len()]);
        }
    }
}

proof fn lemma_product_row_doms(m: BMap, bs: Seq<BMap>, va: Set<Seq<u8>>, vb: Set<Seq<u8>>)
    requires
        m.dom() == va,
        all_doms(bs, vb),
    ensures
        all_doms(s_product_row(m, bs), va.union(vb)),
    decreases bs.len(),
{
    if bs.len() > 0 {
        lemma_product_row_doms(m, bs.drop_first(), va, vb);
        assert(bs.drop_first().len() == bs.len() - 1);
        assert(all_doms(bs.drop_first(), vb)) by {
            assert forall|k: int| 0 <= k < bs.drop_first().len() implies (#[trigger] bs.drop_first()[k]).dom() == vb by {
                assert(bs.drop_first()[k] == bs[k + 1]);
            }
        }
        assert(bs[0].dom() == vb);
        assert(m.union_prefer_right(bs[0]).dom() =~= va.union(vb));
        lemma_all_doms_concat(
            seq![m.union_prefer_right(bs[0])],
            s_product_row(m, bs.drop_first()),
            va.union(vb),
        );
    }
}

/// The Cartesian product of bindings over `va` with bindings over `vb`
/// binds exactly their union.
pub proof fn lemma_product_doms(a: Seq<BMap>, bs: Seq<BMap>, va: Set<Seq<u8>>, vb: Set<Seq<u8>>)
    requires
        all_doms(a, va),
        all_doms(bs, vb),
    ensures
        all_doms(s_product(a, bs), va.union(vb)),
    decreases a.len(),
{
    if a.len() > 0 {
        assert(all_doms(a.drop_first(), va)) by {
            assert forall|k: int| 0 <= k < a.drop_first().len() implies (#[trigger] a.drop_first()[k]).dom() == va by {
                assert(a.drop_first()[k] == a[k + 1]);
            }
        }
        lemma_product_doms(a.drop_first(), bs, va, vb);
        lemma_product_row_doms(a[0], bs, va, vb);
        lemma_all_doms_concat(s_product_row(a[0], bs), s_product(a.drop_first(), bs), va.union(vb));
    }
}

/// A skip marker binds nothing.
proof fn lemma_skip_node_vars(p: NodeModel)
    requires
        s_is_skip_node(p),
    ensures
        pat_vars(p) == Set::<Seq<u8>>::empty(),
{
    let t = text_of(p);
    let tt = spec_trim(t);
    assert(tt == crate::lexicon::skip_marker());
    assert(tt.len() == 3 && tt[0] == 46 && tt[1] == 46 && tt[2] == 46);
    assert(open_braces()[0] == 123 && close_braces()[0] == 125);
    assert(spec_is_var(t) is None) by {
        if tt.len() >= 4 {
        } else {
        }
    }
    assert(!spec_contains(tt, open_braces())) by {
        assert(tt.subrange(0, 2)[0] == 46);
        assert(tt.subrange(1, 3)[0] == 46);
        assert(spec_find_from(tt, open_braces(), 2) is None);
        assert(spec_find_from(tt, open_braces(), 1) is None);
        assert(spec_find_from(tt, open_braces(), 0) is None);
    }
    assert(pat_vars(p) =~= Set::<Seq<u8>>::empty());
}

/// A pattern list of skip markers alone binds nothing.
proof fn lemma_all_skip_no_vars(pl: Seq<NodeModel>)
    requires
        s_non_skip_count(pl) == 0,
    ensures
        list_vars(pl) == Set::<Seq<u8>>::empty(),
    decreases pl.len(),
{
    if pl.len() > 0 {
        assert(s_non_skip_count(pl.drop_first()) == 0);
        lemma_all_skip_no_vars(pl.drop_first());
        lemma_skip_node_vars(pl[0]);
        assert(list_vars(pl) =~= Set::<Seq<u8>>::empty());
    } else {
        assert(list_vars(pl) =~= Set::<Seq<u8>>::empty());
    }
}

/// Every binding that matching a subtree yields binds exactly the
/// pattern's variables: every variable name of the pattern appears as a
/// key, and nothing else does.
pub proof fn lemma_bindings_bind_all_vars(d: NodeModel, p: NodeModel, exact: bool)
    ensures
        all_doms(s_match_subtree(d, p, exact), pat_vars(p)),
    decreases model_size(d), model_size(p), 0int, 0int,
{
    let res = s_match_subtree(d, p, exact);
    if p is Text {
        match spec_is_var(text_of(p)) {
            Some(nv) => {
                if !nv.1 && d is Text {
                    let m = Map::<Seq<u8>, Seq<u8>>::empty().insert(
                        nv.0,
                        spec_trim(text_of(d)),
                    );
                    assert(m.dom() =~= set![nv.0]);
                    assert(res[0] == m);
                }
            },
            None => {
                if d is Text {
                    lemma_match_text_dom(spec_trim(text_of(d)), spec_trim(text_of(p)));
                    match spec_match_text(spec_trim(text_of(d)), spec_trim(text_of(p))) {
                        Some(m) => {
                            assert(res[0] == m);
                        },
                        None => {},
                    }
                }
            },
        }
    } else {
        let arm: Seq<BMap> = if d is Doctype && p is Doctype {
            s_match_siblings(Seq::empty(), Seq::empty(), false)
        } else if d is Document && p is Document {
            s_match_siblings(spec_children(d), spec_children(p), false)
        } else if d is Element && p is Element && elem_ns(d) == elem_ns(p) && elem_local(d)
            == elem_local(p) {
            match spec_match_attributes(elem_attrs(d), elem_attrs(p)) {
                None => Seq::empty(),
                Some(m1) => s_product(
                    seq![m1],
                    s_match_siblings(
                        spec_children(d),
                        s_pattern_kids(p),
                        spec_has_subseq(elem_attrs(p)),
                    ),
                ),
            }
        } else {
            Seq::empty()
        };
        assert(all_doms(arm, pat_vars(p))) by {
            if d is Doctype && p is Doctype {
                assert(pat_vars(p) =~= Set::<Seq<u8>>::empty());
                assert(list_vars(Seq::empty()) =~= Set::<Seq<u8>>::empty());
                assert(arm[0].dom() =~= Set::<Seq<u8>>::empty());
            } else if d is Document && p is Document {
                lemma_children_size(d);
                lemma_doms_siblings(spec_children(d), spec_children(p), false);
            } else if d is Element && p is Element && elem_ns(d) == elem_ns(p) && elem_local(d)
                == elem_local(p) {
                lemma_match_attributes_dom(elem_attrs(d), elem_attrs(p));
                match spec_match_attributes(elem_attrs(d), elem_attrs(p)) {
                    None => {},
                    Some(m1) => {
                        lemma_children_size(d);
                        lemma_doms_siblings(
                            spec_children(d),
                            s_pattern_kids(p),
                            spec_has_subseq(elem_attrs(p)),
                        );
                        assert(all_doms(seq![m1], attr_vars(elem_attrs(p))));
                        lemma_product_doms(
                            seq![m1],
                            s_match_siblings(
                                spec_children(d),
                                s_pattern_kids(p),
                                spec_has_subseq(elem_attrs(p)),
                            ),
                            attr_vars(elem_attrs(p)),
                            list_vars(s_pattern_kids(p)),
                        );
                    },
                }
            }
        }
        if !exact {
            lemma_children_size(d);
            lemma_doms_subtree_kids(spec_children(d), p, 0);
            lemma_all_doms_concat(arm, s_subtree_kids(spec_children(d), p, 0), pat_vars(p));
        } else {
            lemma_all_doms_concat(arm, Seq::empty(), pat_vars(p));
        }
    }
}

proof fn lemma_doms_subtree_kids(cs: Seq<NodeModel>, p: NodeModel, i: int)
    ensures
        all_doms(s_subtree_kids(cs, p, i), pat_vars(p)),
    decreases forest_size(cs), model_size(p), 1int, cs.len() - i,
{
    if i < 0 || i >= cs.len() {
    } else {
        lemma_forest_size_element(cs, i);
        lemma_bindings_bind_all_vars(cs[i], p, false);
        lemma_doms_subtree_kids(cs, p, i + 1);
        lemma_all_doms_concat(
            s_match_subtree(cs[i], p, false),
            s_subtree_kids(cs, p, i + 1),
            pat_vars(p),
        );
    }
}

/// Every binding that sibling matching yields binds exactly the sibling
/// pattern's variables.
pub proof fn lemma_doms_siblings(dl: Seq<NodeModel>, pl: Seq<NodeModel>, subseq: bool)
    ensures
        all_doms(s_match_siblings(dl, pl, subseq), list_vars(pl)),
    decreases forest_size(dl), forest_size(pl), 3int, 0int,
{
    let res = s_match_siblings(dl, pl, subseq);
    if pl.len() == 0 {
        assert(res[0].dom() =~= list_vars(pl));
    } else if dl.len() == 0 {
    } else if pl.len() == 1 && s_whole_var(pl[0]) is Some {
        let name = s_whole_var(pl[0])->Some_0;
        assert(res[0].dom() =~= set![name]);
        assert(pl.drop_first() =~= Seq::<NodeModel>::empty());
        assert(list_vars(Seq::<NodeModel>::empty()) =~= Set::<Seq<u8>>::empty());
        assert(pl[0] is Text);
        assert(text_vars(text_of(pl[0])) =~= set![name]);
        assert(pat_vars(pl[0]) =~= set![name]);
        assert(list_vars(pl) =~= set![name]);
    } else {
        proof_measure_facts(dl, pl);
        let first: Seq<BMap> = if subseq {
            s_match_direct(dl, pl, subseq)
        } else {
            s_direct_starts(dl, pl, subseq, 0)
        };
        if subseq {
            lemma_doms_direct(dl, pl, subseq);
        } else {
            lemma_doms_starts(dl, pl, subseq, 0);
        }
        lemma_doms_descend_each(dl, pl, subseq, 0);
        lemma_all_doms_concat(first, s_descend_each(dl, pl, subseq, 0), list_vars(pl));
    }
}

proof fn lemma_doms_starts(dl: Seq<NodeModel>, pl: Seq<NodeModel>, subseq: bool, i: int)
    ensures
        all_doms(s_direct_starts(dl, pl, subseq, i), list_vars(pl)),
    decreases forest_size(dl), forest_size(pl), 2int, dl.len() - i,
{
    if i < 0 || i >= dl.len() {
    } else {
        lemma_forest_size_skip_le(dl, 0, i);
        assert(dl.skip(0) =~= dl);
        lemma_doms_direct(dl.skip(i), pl, subseq);
        lemma_doms_starts(dl, pl, subseq, i + 1);
        lemma_all_doms_concat(
            s_match_direct(dl.skip(i), pl, subseq),
            s_direct_starts(dl, pl, subseq, i + 1),
            list_vars(pl),
        );
    }
}

proof fn lemma_doms_descend_each(dl: Seq<NodeModel>, pl: Seq<NodeModel>, subseq: bool, i: int)
    ensures
        all_doms(s_descend_each(dl, pl, subseq, i), list_vars(pl)),
    decreases forest_size(dl), forest_size(pl), 2int, dl.len() - i,
{
    if i < 0 || i >= dl.len() {
    } else {
        lemma_forest_size_element(dl, i);
        lemma_doms_descendants(dl[i], pl, subseq);
        lemma_doms_descend_each(dl, pl, subseq, i + 1);
        lemma_all_doms_concat(
            s_match_descendants(dl[i], pl, subseq),
            s_descend_each(dl, pl, subseq, i + 1),
            list_vars(pl),
        );
    }
}

proof fn lemma_doms_descendants(d: NodeModel, pl: Seq<NodeModel>, subseq: bool)
    ensures
        all_doms(s_match_descendants(d, pl, subseq), list_vars(pl)),
    decreases model_size(d), forest_size(pl), 0int, 0int,
{
    if pl.len() == 0 {
        assert(s_match_descendants(d, pl, subseq)[0].dom() =~= list_vars(pl));
    } else {
        lemma_children_size(d);
        lemma_doms_siblings(spec_children(d), pl, subseq);
    }
}

proof fn lemma_doms_direct(dl: Seq<NodeModel>, pl: Seq<NodeModel>, subseq: bool)
    ensures
        all_doms(s_match_direct(dl, pl, subseq), list_vars(pl)),
    decreases forest_size(dl), forest_size(pl), 1int, 0int,
{
    let nsk = s_non_skip_count(pl);
    let res = s_match_direct(dl, pl, subseq);
    if nsk == 0 {
        lemma_all_skip_no_vars(pl);
        assert(res[0].dom() =~= list_vars(pl));
    } else if nsk > dl.len() {
    } else {
        proof_measure_facts(dl, pl);
        if s_is_skip_node(pl[0]) {
            lemma_skip_node_vars(pl[0]);
            assert(list_vars(pl) =~= list_vars(pl.drop_first()));
            lemma_doms_skip_starts(dl, pl.drop_first(), subseq, 0);
        } else {
            let heads = s_match_subtree(dl[0], pl[0], true);
            let firstpart: Seq<BMap> = if heads.len() > 0 {
                s_product(heads, s_match_direct(dl.drop_first(), pl.drop_first(), subseq))
            } else {
                Seq::empty()
            };
            assert(all_doms(firstpart, list_vars(pl))) by {
                if heads.len() > 0 {
                    lemma_bindings_bind_all_vars(dl[0], pl[0], true);
                    lemma_doms_direct(dl.drop_first(), pl.drop_first(), subseq);
                    lemma_product_doms(
                        heads,
                        s_match_direct(dl.drop_first(), pl.drop_first(), subseq),
                        pat_vars(pl[0]),
                        list_vars(pl.drop_first()),
                    );
                }
            }
            if subseq {
                lemma_doms_direct(dl.drop_first(), pl, subseq);
                lemma_all_doms_concat(
                    firstpart,
                    s_match_direct(dl.drop_first(), pl, subseq),
                    list_vars(pl),
                );
            } else {
                lemma_all_doms_concat(firstpart, Seq::empty(), list_vars(pl));
            }
        }
    }
}

proof fn lemma_doms_skip_starts(dl: Seq<NodeModel>, plt: Seq<NodeModel>, subseq: bool, i: int)
    ensures
        all_doms(s_skip_starts(dl, plt, subseq, i), list_vars(plt)),
    decreases forest_size(dl), forest_size(plt), 2int, dl.len() - i,
{
    if i < 0 || i >= dl.len() {
    } else {
        lemma_forest_size_skip_le(dl, 0, i);
        assert(dl.skip(0) =~= dl);
        lemma_doms_direct(dl.skip(i), plt, subseq);
        lemma_doms_skip_starts(dl, plt, subseq, i + 1);
        lemma_all_doms_concat(
            s_match_direct(dl.skip(i), plt, subseq),
            s_skip_starts(dl, plt, subseq, i + 1),
            list_vars(plt),
        );
    }
}

/// A pattern without variables yields only empty binding maps, one per
/// embedding.
pub proof fn lemma_no_vars_empty_bindings(d: NodeModel, p: NodeModel, exact: bool, k: int)
    requires
        pat_vars(p) == Set::<Seq<u8>>::empty(),
        0 <= k < s_match_subtree(d, p, exact).len(),
    ensures
        s_match_subtree(d, p, exact)[k] == Map::<Seq<u8>, Seq<u8>>::empty(),
{
    lemma_bindings_bind_all_vars(d, p, exact);
    let m = s_match_subtree(d, p, exact)[k];
    assert(m.dom() == Set::<Seq<u8>>::empty());
    assert(m =~= Map::<Seq<u8>, Seq<u8>>::empty());
}

proof fn lemma_contains_concat(a: Seq<BMap>, b: Seq<BMap>, x: BMap)
    ensures
        (a + b).contains(x) <==> a.contains(x) || b.contains(x),
{
    if a.contains(x) {
        let i = choose|i: int| 0 <= i < a.len() && a[i] == x;
        assert((a + b)[i] == x);
    }
    if b.contains(x) {
        let i = choose|i: int| 0 <= i < b.len() && b[i] == x;
        assert((a + b)[a.len() + i] == x);
    }
    if (a + b).contains(x) {
        let i = choose|i: int| 0 <= i < (a + b).len() && (a + b)[i] == x;
        if i < a.len() {
            assert(a[i] == x);
        } else {
            assert(b[i - a.len()] == x);
        }
    }
}

/// Continuing after a skip marker tries exactly the same offsets as direct
/// placement does.
proof fn lemma_skip_starts_eq_direct_starts(
    dl: Seq<NodeModel>,
    pl: Seq<NodeModel>,
    subseq: bool,
    i: int,
)
    ensures
        s_skip_starts(dl, pl, subseq, i) == s_direct_starts(dl, pl, subseq, i),
    decreases forest_size(dl), forest_size(pl), 2int, dl.len() - i,
{
    if i < 0 || i >= dl.len() {
    } else {
        lemma_skip_starts_eq_direct_starts(dl, pl, subseq, i + 1);
    }
}

/// Each per-offset result is contained in the sum over offsets.
proof fn lemma_starts_contains_summand(
    dl: Seq<NodeModel>,
    pl: Seq<NodeModel>,
    subseq: bool,
    i0: int,
    j: int,
    x: BMap,
)
    requires
        0 <= i0 <= j < dl.len(),
        s_match_direct(dl.skip(j), pl, subseq).contains(x),
    ensures
        s_direct_starts(dl, pl, subseq, i0).contains(x),
    decreases j - i0,
{
    if i0 == j {
        lemma_contains_concat(
            s_match_direct(dl.skip(i0), pl, subseq),
            s_direct_starts(dl, pl, subseq, i0 + 1),
            x,
        );
    } else {
        lemma_starts_contains_summand(dl, pl, subseq, i0 + 1, j, x);
        lemma_contains_concat(
            s_match_direct(dl.skip(i0), pl, subseq),
            s_direct_starts(dl, pl, subseq, i0 + 1),
            x,
        );
    }
}

/// Every element of the sum over offsets comes from one offset.
proof fn lemma_starts_element(
    dl: Seq<NodeModel>,
    pl: Seq<NodeModel>,
    subseq: bool,
    i0: int,
    x: BMap,
)
    requires
        0 <= i0,
        s_direct_starts(dl, pl, subseq, i0).contains(x),
    ensures
        exists|j: int|
            i0 <= j < dl.len() && (#[trigger] s_match_direct(dl.skip(j), pl, subseq)).contains(x),
    decreases dl.len() - i0,
{
    if i0 >= dl.len() {
    } else {
        lemma_contains_concat(
            s_match_direct(dl.skip(i0), pl, subseq),
            s_direct_starts(dl, pl, subseq, i0 + 1),
            x,
        );
        if s_match_direct(dl.skip(i0), pl, subseq).contains(x) {
            assert(s_match_direct(dl.skip(i0), pl, subseq).contains(x));
        } else {
            lemma_starts_element(dl, pl, subseq, i0 + 1, x);
        }
    }
}

/// In subsequence mode, passing over the first document node loses no
/// binding: whatever matches the tail sibling run matches the full one.
proof fn lemma_subseq_drop_contains(d: Seq<NodeModel>, pl: Seq<NodeModel>, x: BMap)
    requires
        d.len() > 0,
        s_match_direct(d.drop_first(), pl, true).contains(x),
    ensures
        s_match_direct(d, pl, true).contains(x),
    decreases forest_size(d), forest_size(pl), 4int, 0int,
{
    let nsk = s_non_skip_count(pl);
    proof_measure_facts_one(d);
    if nsk == 0 {
        assert(s_match_direct(d.drop_first(), pl, true) =~= seq![
            Map::<Seq<u8>, Seq<u8>>::empty(),
        ]);
        assert(x == Map::<Seq<u8>, Seq<u8>>::empty());
        assert(s_match_direct(d, pl, true)[0] == x);
    } else if nsk > d.len() - 1 {
        assert(s_match_direct(d.drop_first(), pl, true).len() == 0);
    } else {
        assert(pl.len() > 0);
        if s_is_skip_node(pl[0]) {
            let plt = pl.drop_first();
            lemma_skip_starts_eq_direct_starts(d.drop_first(), plt, true, 0);
            lemma_skip_starts_eq_direct_starts(d, plt, true, 0);
            lemma_starts_element(d.drop_first(), plt, true, 0, x);
            let k = choose|k: int|
                0 <= k < d.drop_first().len() && (#[trigger] s_match_direct(
                    d.drop_first().skip(k),
                    plt,
                    true,
                )).contains(x);
            assert(d.drop_first().skip(k) =~= d.skip(k + 1));
            lemma_starts_contains_summand(d, plt, true, 0, k + 1, x);
        } else {
            let heads = s_match_subtree(d[0], pl[0], true);
            let firstpart: Seq<BMap> = if heads.len() > 0 {
                s_product(heads, s_match_direct(d.drop_first(), pl.drop_first(), true))
            } else {
                Seq::empty()
            };
            lemma_contains_concat(firstpart, s_match_direct(d.drop_first(), pl, true), x);
        }
    }
}

proof fn proof_measure_facts_one(dl: Seq<NodeModel>)
    requires
        dl.len() > 0,
    ensures
        forest_size(dl.drop_first()) < forest_size(dl),
        forall|i: int| 0 <= i <= dl.len() ==> forest_size(#[trigger] dl.skip(i)) <= forest_size(dl),
{
    lemma_forest_size_skip_step(dl, 0);
    crate::tree::lemma_model_size_pos(dl[0]);
    assert(dl.skip(0) =~= dl);
    assert(dl.drop_first() =~= dl.skip(1));
    assert forall|i: int| 0 <= i <= dl.len() implies forest_size(#[trigger] dl.skip(i))
        <= forest_size(dl) by {
        lemma_forest_size_skip_le(dl, 0, i);
    }
}

/// In subsequence mode, starting at any later offset loses no binding.
proof fn lemma_subseq_skip_contains(d: Seq<NodeModel>, pl: Seq<NodeModel>, i: int, x: BMap)
    requires
        0 <= i <= d.len(),
        s_match_direct(d.skip(i), pl, true).contains(x),
    ensures
        s_match_direct(d, pl, true).contains(x),
    decreases i,
{
    if i == 0 {
        assert(d.skip(0) =~= d);
    } else {
        assert(d.len() > 0);
        assert(d.skip(i) =~= d.drop_first().skip(i - 1));
        lemma_subseq_skip_contains(d.drop_first(), pl, i - 1, x);
        lemma_subseq_drop_contains(d, pl, x);
    }
}

/// A skip marker at the start of a sibling pattern changes the set of
/// bindings not at all, though it repeats some of them: each side's results
/// occur among the other's. The two patterns that must stay out are the
/// same as for a trailing skip: the empty pattern (on an empty sibling run)
/// and a sole whole-subtree placeholder.
pub proof fn lemma_leading_skip_siblings(
    dl: Seq<NodeModel>,
    pl: Seq<NodeModel>,
    sk: NodeModel,
    subseq: bool,
)
    requires
        s_is_skip_node(sk),
        pl.len() > 0,
        !(pl.len() == 1 && s_whole_var(pl[0]) is Some),
    ensures
        s_match_siblings(dl, seq![sk] + pl, subseq).to_set() == s_match_siblings(
            dl,
            pl,
            subseq,
        ).to_set(),
    decreases forest_size(dl), forest_size(pl), 3int, 0int,
{
    let cons = seq![sk] + pl;
    assert(cons.len() == pl.len() + 1);
    assert(cons[0] == sk);
    assert(cons.drop_first() =~= pl);
    if dl.len() == 0 {
        assert(s_match_siblings(dl, cons, subseq).to_set() =~= s_match_siblings(
            dl,
            pl,
            subseq,
        ).to_set());
    } else {
        proof_measure_facts(dl, pl);
        assert(forest_size(cons) > forest_size(pl)) by {
            lemma_forest_size_skip_step(cons, 0);
            crate::tree::lemma_model_size_pos(cons[0]);
            assert(cons.skip(0) =~= cons);
            assert(cons.skip(1) =~= pl);
        }
        let nsk = s_non_skip_count(pl);
        assert(s_non_skip_count(cons) == nsk);
        let ld: Seq<BMap> = if subseq {
            s_match_direct(dl, cons, subseq)
        } else {
            s_direct_starts(dl, cons, subseq, 0)
        };
        let rd: Seq<BMap> = if subseq {
            s_match_direct(dl, pl, subseq)
        } else {
            s_direct_starts(dl, pl, subseq, 0)
        };
        assert forall|x: BMap| ld.contains(x) implies rd.contains(x) by {
            lemma_leading_direct_forward(dl, pl, cons, subseq, x);
        }
        assert forall|x: BMap| rd.contains(x) implies ld.contains(x) by {
            lemma_leading_direct_backward(dl, pl, cons, subseq, x);
        }
        assert forall|x: BMap|
            s_descend_each(dl, cons, subseq, 0).contains(x) == s_descend_each(
                dl,
                pl,
                subseq,
                0,
            ).contains(x) by {
            lemma_leading_skip_descend_set(dl, pl, sk, subseq, 0, x);
        }
        lemma_contains_concat_both(ld, s_descend_each(dl, cons, subseq, 0), rd, s_descend_each(
            dl,
            pl,
            subseq,
            0,
        ));
        assert(s_match_siblings(dl, cons, subseq) == ld + s_descend_each(dl, cons, subseq, 0));
        assert(s_match_siblings(dl, pl, subseq) == rd + s_descend_each(dl, pl, subseq, 0));
        assert(s_match_siblings(dl, cons, subseq).to_set() =~= s_match_siblings(
            dl,
            pl,
            subseq,
        ).to_set());
    }
}

proof fn lemma_contains_concat_both(a: Seq<BMap>, b: Seq<BMap>, c: Seq<BMap>, d: Seq<BMap>)
    requires
        forall|x: BMap| a.contains(x) ==> c.contains(x) || d.contains(x),
        forall|x: BMap| c.contains(x) ==> a.contains(x) || b.contains(x),
        forall|x: BMap| b.contains(x) == d.contains(x),
    ensures
        forall|x: BMap| (a + b).contains(x) == (c + d).contains(x),
{
    assert forall|x: BMap| (a + b).contains(x) == (c + d).contains(x) by {
        lemma_contains_concat(a, b, x);
        lemma_contains_concat(c, d, x);
    }
}

proof fn lemma_leading_direct_forward(
    dl: Seq<NodeModel>,
    pl: Seq<NodeModel>,
    cons: Seq<NodeModel>,
    subseq: bool,
    x: BMap,
)
    requires
        dl.len() > 0,
        pl.len() > 0,
        cons.len() == pl.len() + 1,
        s_is_skip_node(cons[0]),
        cons.drop_first() == pl,
        (if subseq {
            s_match_direct(dl, cons, subseq)
        } else {
            s_direct_starts(dl, cons, subseq, 0)
        }).contains(x),
    ensures
        (if subseq {
            s_match_direct(dl, pl, subseq)
        } else {
            s_direct_starts(dl, pl, subseq, 0)
        }).contains(x),
{
    proof_measure_facts_one(dl);
    let nsk = s_non_skip_count(pl);
    assert(s_non_skip_count(cons) == nsk);
    if subseq {
        if nsk == 0 {
            assert(x == Map::<Seq<u8>, Seq<u8>>::empty());
            assert(s_match_direct(dl, pl, subseq)[0] == x);
        } else if nsk > dl.len() {
            assert(s_match_direct(dl, cons, subseq).len() == 0);
        } else {
            lemma_skip_starts_eq_direct_starts(dl, pl, true, 0);
            lemma_starts_element(dl, pl, true, 0, x);
            let j = choose|j: int|
                0 <= j < dl.len() && (#[trigger] s_match_direct(dl.skip(j), pl, true)).contains(
                    x,
                );
            lemma_subseq_skip_contains(dl, pl, j, x);
        }
    } else {
        lemma_starts_element(dl, cons, subseq, 0, x);
        let j = choose|j: int|
            0 <= j < dl.len() && (#[trigger] s_match_direct(dl.skip(j), cons, subseq)).contains(
                x,
            );
        let dj = dl.skip(j);
        if nsk == 0 {
            assert(x == Map::<Seq<u8>, Seq<u8>>::empty());
            assert(s_match_direct(dl.skip(0), pl, subseq)[0] == x) by {
                assert(dl.skip(0) =~= dl);
            }
            lemma_starts_contains_summand(dl, pl, subseq, 0, 0, x);
        } else if nsk > dj.len() {
            assert(s_match_direct(dj, cons, subseq).len() == 0);
        } else {
            lemma_skip_starts_eq_direct_starts(dj, pl, subseq, 0);
            lemma_starts_element(dj, pl, subseq, 0, x);
            let k = choose|k: int|
                0 <= k < dj.len() && (#[trigger] s_match_direct(dj.skip(k), pl, subseq)).contains(
                    x,
                );
            assert(dj.skip(k) =~= dl.skip(j + k));
            lemma_starts_contains_summand(dl, pl, subseq, 0, j + k, x);
        }
    }
}

proof fn lemma_leading_direct_backward(
    dl: Seq<NodeModel>,
    pl: Seq<NodeModel>,
    cons: Seq<NodeModel>,
    subseq: bool,
    x: BMap,
)
    requires
        dl.len() > 0,
        pl.len() > 0,
        cons.len() == pl.len() + 1,
        s_is_skip_node(cons[0]),
        cons.drop_first() == pl,
        (if subseq {
            s_match_direct(dl, pl, subseq)
        } else {
            s_direct_starts(dl, pl, subseq, 0)
        }).contains(x),
    ensures
        (if subseq {
            s_match_direct(dl, cons, subseq)
        } else {
            s_direct_starts(dl, cons, subseq, 0)
        }).contains(x),
{
    proof_measure_facts_one(dl);
    let nsk = s_non_skip_count(pl);
    assert(s_non_skip_count(cons) == nsk);
    if subseq {
        if nsk == 0 {
            assert(x == Map::<Seq<u8>, Seq<u8>>::empty());
            assert(s_match_direct(dl, cons, subseq)[0] == x);
        } else if nsk > dl.len() {
            assert(s_match_direct(dl, pl, subseq).len() == 0);
        } else {
            lemma_skip_starts_eq_direct_starts(dl, pl, true, 0);
            assert(dl.skip(0) =~= dl);
            lemma_starts_contains_summand(dl, pl, true, 0, 0, x);
        }
    } else {
        lemma_starts_element(dl, pl, subseq, 0, x);
        let j = choose|j: int|
            0 <= j < dl.len() && (#[trigger] s_match_direct(dl.skip(j), pl, subseq)).contains(x);
        let dj = dl.skip(j);
        if nsk == 0 {
            assert(x == Map::<Seq<u8>, Seq<u8>>::empty());
            assert(s_match_direct(dl.skip(0), cons, subseq)[0] == x) by {
                assert(dl.skip(0) =~= dl);
            }
            lemma_starts_contains_summand(dl, cons, subseq, 0, 0, x);
        } else {
            if nsk > dj.len() {
                assert(s_match_direct(dj, pl, subseq).len() == 0);
            } else {
                lemma_skip_starts_eq_direct_starts(dj, pl, subseq, 0);
                assert(dj.skip(0) =~= dj);
                lemma_starts_contains_summand(dj, pl, subseq, 0, 0, x);
                assert(s_match_direct(dj, cons, subseq).contains(x));
                lemma_starts_contains_summand(dl, cons, subseq, 0, j, x);
            }
        }
    }
}

proof fn lemma_leading_skip_descend_set(
    dl: Seq<NodeModel>,
    pl: Seq<NodeModel>,
    sk: NodeModel,
    subseq: bool,
    i: int,
    x: BMap,
)
    requires
        s_is_skip_node(sk),
        pl.len() > 0,
        !(pl.len() == 1 && s_whole_var(pl[0]) is Some),
    ensures
        s_descend_each(dl, seq![sk] + pl, subseq, i).contains(x) == s_descend_each(
            dl,
            pl,
            subseq,
            i,
        ).contains(x),
    decreases forest_size(dl), forest_size(pl), 2int, dl.len() - i,
{
    let cons = seq![sk] + pl;
    if i < 0 || i >= dl.len() {
    } else {
        lemma_forest_size_element(dl, i);
        lemma_children_size(dl[i]);
        lemma_leading_skip_siblings(spec_children(dl[i]), pl, sk, subseq);
        assert(s_match_descendants(dl[i], cons, subseq) == s_match_siblings(
            spec_children(dl[i]),
            cons,
            subseq,
        ));
        assert(s_match_descendants(dl[i], pl, subseq) == s_match_siblings(
            spec_children(dl[i]),
            pl,
            subseq,
        ));
        assert(s_match_descendants(dl[i], cons, subseq).contains(x) == s_match_descendants(
            dl[i],
            pl,
            subseq,
        ).contains(x)) by {
            let a = s_match_siblings(spec_children(dl[i]), cons, subseq);
            let b = s_match_siblings(spec_children(dl[i]), pl, subseq);
            assert(a.to_set() == b.to_set());
            assert(a.to_set().contains(x) == a.contains(x));
            assert(b.to_set().contains(x) == b.contains(x));
        }
        lemma_leading_skip_descend_set(dl, pl, sk, subseq, i + 1, x);
        lemma_contains_concat(
            s_match_descendants(dl[i], cons, subseq),
            s_descend_each(dl, cons, subseq, i + 1),
            x,
        );
        lemma_contains_concat(
            s_match_descendants(dl[i], pl, subseq),
            s_descend_each(dl, pl, subseq, i + 1),
            x,
        );
    }
}

} // verus!
