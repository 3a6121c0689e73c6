//! The attribute matcher. Every pattern attribute except the special `subseq`
//! must be present on the document element; its value is a placeholder, a
//! template, or a whitespace-separated token subset of the document value.
use vstd::prelude::*;

use crate::bindings::BindingMap;
use crate::bytes::{
    bytes_eq, find_sub, spec_find, spec_tokens, spec_trim, tokens, trim,
};
use crate::lexicon::{
    close_braces, is_special_attr, is_var, open_braces, spec_is_special_attr, spec_is_var,
    CLOSE_BRACES, OPEN_BRACES,
};
use crate::text::{match_text, spec_match_text};
use crate::tree::{Attr, AttrModel};

verus! {

/// Every whitespace-separated token of `pat_val` occurs among the tokens of
/// `doc_val`.
pub open spec fn spec_is_subset(doc_val: Seq<u8>, pat_val: Seq<u8>) -> bool {
    forall|i: int|
        0 <= i < spec_tokens(pat_val).len() ==> spec_tokens(doc_val).contains(
            #[trigger] spec_tokens(pat_val)[i],
        )
}

fn contains_token(toks: &Vec<Vec<u8>>, t: &[u8]) -> (r: bool)
    ensures
        r == toks.deep_view().contains(t@),
{
    broadcast use crate::bytes::lemma_vec_u8_deep_view;

    let mut i: usize = 0;
    while i < toks.len()
        invariant
            0 <= i <= toks@.len(),
            forall|j: int| 0 <= j < i ==> toks.deep_view()[j] != t@,
        decreases toks@.len() - i,
    {
        if bytes_eq(toks[i].as_slice(), t) {
            proof {
                assert(toks.deep_view()[i as int] == t@);
            }
            return true;
        }
        proof {
            assert(toks.deep_view()[i as int] == toks@[i as int]@);
        }
        i = i + 1;
    }
    proof {
        assert forall|j: int| 0 <= j < toks.deep_view().len() implies toks.deep_view()[j] != t@
            by {}
    }
    false
}

pub fn is_subset(doc_val: &[u8], pat_val: &[u8]) -> (r: bool)
    ensures
        r == spec_is_subset(doc_val@, pat_val@),
{
    let dt = tokens(doc_val);
    let pt = tokens(pat_val);
    let mut i: usize = 0;
    while i < pt.len()
        invariant
            0 <= i <= pt@.len(),
            dt.deep_view() == spec_tokens(doc_val@),
            pt.deep_view() == spec_tokens(pat_val@),
            forall|j: int|
                0 <= j < i ==> spec_tokens(doc_val@).contains(#[trigger] spec_tokens(pat_val@)[j]),
        decreases pt@.len() - i,
    {
        broadcast use crate::bytes::lemma_vec_u8_deep_view;

        if !contains_token(&dt, pt[i].as_slice()) {
            proof {
                assert(!spec_tokens(doc_val@).contains(spec_tokens(pat_val@)[i as int]));
            }
            return false;
        }
        i = i + 1;
    }
    true
}

/// The value of the first attribute with the given qualified name, if any.
pub open spec fn spec_attr_lookup(attrs: Seq<AttrModel>, ns: Seq<u8>, local: Seq<u8>) -> Option<
    Seq<u8>,
>
    decreases attrs.len(),
{
    if attrs.len() == 0 {
        None
    } else if attrs[0].ns == ns && attrs[0].local == local {
        Some(attrs[0].value)
    } else {
        spec_attr_lookup(attrs.drop_first(), ns, local)
    }
}

fn attr_lookup_from<'a>(attrs: &'a Vec<Attr>, ns: &Vec<u8>, local: &Vec<u8>, i: usize) -> (r:
    Option<&'a Vec<u8>>)
    requires
        i <= attrs@.len(),
    ensures
        match r {
            Some(v) => spec_attr_lookup(attrs.deep_view().skip(i as int), ns@, local@) == Some(
                v@,
            ),
            None => spec_attr_lookup(attrs.deep_view().skip(i as int), ns@, local@) is None,
        },
    decreases attrs@.len() - i,
{
    let ghost l = attrs.deep_view().skip(i as int);
    if i == attrs.len() {
        None
    } else {
        proof {
            assert(l[0] == attrs.deep_view()[i as int]);
            assert(l.drop_first() =~= attrs.deep_view().skip(i + 1));
        }
        let a = &attrs[i];
        if bytes_eq(a.ns.as_slice(), ns.as_slice()) && bytes_eq(
            a.local.as_slice(),
            local.as_slice(),
        ) {
            Some(&a.value)
        } else {
            attr_lookup_from(attrs, ns, local, i + 1)
        }
    }
}

/// Whether an attribute value is matched as a template: a `{{` and a `}}`
/// both occur, the `{{` first.
pub open spec fn spec_attr_template(v: Seq<u8>) -> bool {
    &&& spec_find(v, open_braces()) is Some
    &&& spec_find(v, close_braces()) is Some
    &&& spec_find(v, open_braces())->Some_0 < spec_find(v, close_braces())->Some_0
}

/// What attribute matching yields. Pattern attributes are taken in order;
/// the special `subseq` attribute is skipped; a missing document attribute or
/// a failed value match fails the whole element. A whole-subtree placeholder
/// in an attribute value matches nothing here; pattern construction rejects
/// it up front.
pub open spec fn spec_match_attributes(
    doc_attrs: Seq<AttrModel>,
    pat_attrs: Seq<AttrModel>,
) -> Option<Map<Seq<u8>, Seq<u8>>>
    decreases pat_attrs.len(),
{
    if pat_attrs.len() == 0 {
        Some(Map::empty())
    } else {
        let a = pat_attrs[0];
        let rest = pat_attrs.drop_first();
        if spec_is_special_attr(a.local) {
            spec_match_attributes(doc_attrs, rest)
        } else {
            match spec_attr_lookup(doc_attrs, a.ns, a.local) {
                None => None,
                Some(dv) => match spec_is_var(a.value) {
                    Some(nv) => if nv.1 {
                        None
                    } else {
                        match spec_match_attributes(doc_attrs, rest) {
                            None => None,
                            Some(m) => Some(
                                Map::<Seq<u8>, Seq<u8>>::empty().insert(
                                    nv.0,
                                    spec_trim(dv),
                                ).union_prefer_right(m),
                            ),
                        }
                    },
                    None => if spec_attr_template(a.value) {
                        match spec_match_text(dv, a.value) {
                            None => None,
                            Some(tm) => match spec_match_attributes(doc_attrs, rest) {
                                None => None,
                                Some(m) => Some(tm.union_prefer_right(m)),
                            },
                        }
                    } else {
                        if spec_is_subset(dv, a.value) {
                            spec_match_attributes(doc_attrs, rest)
                        } else {
                            None
                        }
                    },
                },
            }
        }
    }
}

fn match_attrs_from(doc_attrs: &Vec<Attr>, pat_attrs: &Vec<Attr>, pi: usize) -> (r: Option<
    BindingMap,
>)
    requires
        pi <= pat_attrs@.len(),
    ensures
        match r {
            Some(m) => spec_match_attributes(
                doc_attrs.deep_view(),
                pat_attrs.deep_view().skip(pi as int),
            ) == Some(m@),
            None => spec_match_attributes(
                doc_attrs.deep_view(),
                pat_attrs.deep_view().skip(pi as int),
            ) is None,
        },
    decreases pat_attrs@.len() - pi,
{
    broadcast use crate::bytes::lemma_vec_u8_deep_view;

    let ghost pl = pat_attrs.deep_view().skip(pi as int);
    if pi == pat_attrs.len() {
        return Some(BindingMap::new());
    }
    proof {
        assert(pl[0] == pat_attrs.deep_view()[pi as int]);
        assert(pl.drop_first() =~= pat_attrs.deep_view().skip(pi + 1));
    }
    let a = &pat_attrs[pi];
    if is_special_attr(a.local.as_slice()) {
        return match_attrs_from(doc_attrs, pat_attrs, pi + 1);
    }
    proof {
        assert(doc_attrs.deep_view().skip(0) =~= doc_attrs.deep_view());
    }
    match attr_lookup_from(doc_attrs, &a.ns, &a.local, 0) {
        None => None,
        Some(dv) => {
            match is_var(a.value.as_slice()) {
                Some(v) => {
                    if v.whole {
                        None
                    } else {
                        match match_attrs_from(doc_attrs, pat_attrs, pi + 1) {
                            None => None,
                            Some(m) => {
                                let mut r = BindingMap::singleton(v.name, trim(dv.as_slice()));
                                r.merge_from(&m);
                                Some(r)
                            },
                        }
                    }
                },
                None => {
                    proof {
                        assert(OPEN_BRACES@ =~= open_braces());
                        assert(CLOSE_BRACES@ =~= close_braces());
                    }
                    let x = find_sub(a.value.as_slice(), OPEN_BRACES.as_slice());
                    let y = find_sub(a.value.as_slice(), CLOSE_BRACES.as_slice());
                    let is_template = match (x, y) {
                        (Some(xi), Some(yi)) => xi < yi,
                        _ => false,
                    };
                    if is_template {
                        match match_text(dv.as_slice(), a.value.as_slice()) {
                            None => None,
                            Some(tm) => match match_attrs_from(doc_attrs, pat_attrs, pi + 1) {
                                None => None,
                                Some(m) => {
                                    let mut r = tm;
                                    r.merge_from(&m);
                                    Some(r)
                                },
                            },
                        }
                    } else {
                        if is_subset(dv.as_slice(), a.value.as_slice()) {
                            match_attrs_from(doc_attrs, pat_attrs, pi + 1)
                        } else {
                            None
                        }
                    }
                },
            }
        },
    }
}

/// Matches a document element's attributes against a pattern element's.
pub fn match_attributes(doc_attrs: &Vec<Attr>, pat_attrs: &Vec<Attr>) -> (r: Option<BindingMap>)
    ensures
        match r {
            Some(m) => spec_match_attributes(doc_attrs.deep_view(), pat_attrs.deep_view())
                == Some(m@),
            None => spec_match_attributes(doc_attrs.deep_view(), pat_attrs.deep_view()) is None,
        },
{
    let r = match_attrs_from(doc_attrs, pat_attrs, 0);
    proof {
        assert(pat_attrs.deep_view().skip(0) =~= pat_attrs.deep_view());
    }
    r
}

} // verus!
