//! The text matcher. A pattern string containing `{{` and `}}` is a template:
//! literal segments between holes match literally, each hole captures any
//! characters, greedily, and both ends are anchored. Without braces the match
//! is plain equality. Inputs are compared byte for byte.
use vstd::prelude::*;

use crate::bindings::BindingMap;
use crate::bytes::{
    bytes_eq, contains_sub, find_sub, lemma_find_from_bounds, spec_contains, spec_find,
    spec_starts_with, starts_with,
};
use crate::lexicon::{close_braces, open_braces, CLOSE_BRACES, OPEN_BRACES};

verus! {

/// Splits a template into its literal segments and hole names:
/// `l0 {{n0}} l1 {{n1}} … lk` gives `(l0 … lk, n0 … n(k-1))`.
/// `None` when some `{{` has no closing `}}`: the template is ill-formed.
pub open spec fn spec_scan(p: Seq<u8>) -> Option<(Seq<Seq<u8>>, Seq<Seq<u8>>)>
    decreases p.len(),
    via spec_scan_decreases
{
    match spec_find(p, open_braces()) {
        None => Some((seq![p], Seq::empty())),
        Some(ix) => {
            let after = p.skip(ix + 2);
            match spec_find(after, close_braces()) {
                None => None,
                Some(cx) => {
                    let rest = after.skip(cx + 2);
                    match spec_scan(rest) {
                        None => None,
                        Some(ln) => Some(
                            (seq![p.take(ix)] + ln.0, seq![after.take(cx)] + ln.1),
                        ),
                    }
                },
            }
        },
    }
}

#[via_fn]
proof fn spec_scan_decreases(p: Seq<u8>) {
    if spec_find(p, open_braces()) is Some {
        lemma_find_from_bounds(p, open_braces(), 0);
        let ix = spec_find(p, open_braces())->Some_0;
        let after = p.skip(ix + 2);
        if spec_find(after, close_braces()) is Some {
            lemma_find_from_bounds(after, close_braces(), 0);
        }
    }
}

/// A scanned template has at least one literal segment, one more than it has
/// names.
pub proof fn lemma_scan_shape(p: Seq<u8>)
    ensures
        spec_scan(p) matches Some(ln) ==> ln.0.len() == ln.1.len() + 1,
    decreases p.len(),
{
    if spec_find(p, open_braces()) is Some {
        lemma_find_from_bounds(p, open_braces(), 0);
        let ix = spec_find(p, open_braces())->Some_0;
        let after = p.skip(ix + 2);
        if spec_find(after, close_braces()) is Some {
            lemma_find_from_bounds(after, close_braces(), 0);
            let cx = spec_find(after, close_braces())->Some_0;
            lemma_scan_shape(after.skip(cx + 2));
        }
    }
}

/// Greedy anchored match of `doc` against the segments `lits` (holes between
/// them): `doc` must start with the first segment and end with the last, and
/// each hole captures greedily. Yields the captures in hole order.
pub open spec fn spec_anchor(doc: Seq<u8>, lits: Seq<Seq<u8>>) -> Option<Seq<Seq<u8>>>
    decreases lits.len(), 0int, 0int,
{
    if lits.len() == 0 {
        None
    } else if lits.len() == 1 {
        if doc == lits[0] {
            Some(Seq::empty())
        } else {
            None
        }
    } else {
        if spec_starts_with(doc, lits[0]) {
            spec_try(
                doc.skip(lits[0].len() as int),
                lits.drop_first(),
                doc.len() - lits[0].len(),
            )
        } else {
            None
        }
    }
}

/// Tries hole capture lengths `k, k-1, …, 0` in turn: the hole takes `k`
/// bytes of `rest` if the remainder matches the remaining segments; a longer
/// capture is preferred (greediness).
pub open spec fn spec_try(rest: Seq<u8>, lits: Seq<Seq<u8>>, k: int) -> Option<Seq<Seq<u8>>>
    decreases lits.len(), 1int, k,
{
    if k < 0 {
        None
    } else {
        match spec_anchor(rest.skip(k), lits) {
            Some(caps) => Some(seq![rest.take(k)] + caps),
            None => if k == 0 {
                None
            } else {
                spec_try(rest, lits, k - 1)
            },
        }
    }
}

/// Scans a template into literal segments and hole names.
pub fn scan_template(p: &[u8]) -> (r: Option<(Vec<Vec<u8>>, Vec<Vec<u8>>)>)
    ensures
        match r {
            Some(ln) => spec_scan(p@) == Some((ln.0.deep_view(), ln.1.deep_view())),
            None => spec_scan(p@) is None,
        },
    decreases p@.len(),
{
    broadcast use crate::bytes::lemma_vec_u8_deep_view;

    proof {
        assert(OPEN_BRACES@ =~= open_braces());
        assert(CLOSE_BRACES@ =~= close_braces());
    }
    match find_sub(p, OPEN_BRACES.as_slice()) {
        None => {
            let mut lits: Vec<Vec<u8>> = Vec::new();
            lits.push(vstd::slice::slice_to_vec(p));
            let names: Vec<Vec<u8>> = Vec::new();
            proof {
                assert(lits.deep_view() =~= seq![p@]);
                assert(names.deep_view() =~= Seq::<Seq<u8>>::empty());
            }
            Some((lits, names))
        },
        Some(ix) => {
            proof {
                lemma_find_from_bounds(p@, open_braces(), 0);
                assert(spec_find(p@, open_braces()) == Some(ix as int));
                assert(ix + 2 <= p@.len());
            }
            let plen = p.len();
            let after = &p[ix + 2..plen];
            proof {
                assert(after@ =~= p@.skip(ix + 2));
            }
            match find_sub(after, CLOSE_BRACES.as_slice()) {
                None => None,
                Some(cx) => {
                    proof {
                        lemma_find_from_bounds(after@, close_braces(), 0);
                    }
                    let name = vstd::slice::slice_to_vec(&after[0..cx]);
                    let rest = &after[cx + 2..after.len()];
                    proof {
                        assert(rest@ =~= p@.skip(ix + 2).skip(cx + 2));
                        assert(name@ =~= p@.skip(ix + 2).take(cx as int));
                    }
                    match scan_template(rest) {
                        None => None,
                        Some((mut lits, mut names)) => {
                            let ghost litsdv = lits.deep_view();
                            let ghost namesdv = names.deep_view();
                            let mut l2: Vec<Vec<u8>> = Vec::new();
                            l2.push(vstd::slice::slice_to_vec(&p[0..ix]));
                            l2.append(&mut lits);
                            let mut n2: Vec<Vec<u8>> = Vec::new();
                            n2.push(name);
                            n2.append(&mut names);
                            proof {
                                assert(l2.deep_view() =~= seq![p@.take(ix as int)] + litsdv);
                                assert(n2.deep_view() =~= seq![p@.skip(ix + 2).take(cx as int)]
                                    + namesdv);
                            }
                            Some((l2, n2))
                        },
                    }
                },
            }
        },
    }
}

/// Anchored match of `doc` against the segments from index `li` on.
fn anchor_match(doc: &[u8], lits: &Vec<Vec<u8>>, li: usize) -> (r: Option<Vec<Vec<u8>>>)
    requires
        li < lits@.len(),
    ensures
        match r {
            Some(c) => spec_anchor(doc@, lits.deep_view().skip(li as int)) == Some(c.deep_view()),
            None => spec_anchor(doc@, lits.deep_view().skip(li as int)) is None,
        },
    decreases lits@.len() - li, 0int,
{
    broadcast use crate::bytes::lemma_vec_u8_deep_view;

    let ghost l = lits.deep_view().skip(li as int);
    proof {
        assert(l[0] == lits.deep_view()[li as int]);
    }
    if li == lits.len() - 1 {
        if bytes_eq(doc, lits[li].as_slice()) {
            let c: Vec<Vec<u8>> = Vec::new();
            proof {
                assert(c.deep_view() =~= Seq::<Seq<u8>>::empty());
            }
            Some(c)
        } else {
            None
        }
    } else {
        if starts_with(doc, lits[li].as_slice()) {
            let l0len = lits[li].len();
            let rest = &doc[l0len..doc.len()];
            proof {
                assert(rest@ =~= doc@.skip(l0len as int));
                assert(l.drop_first() =~= lits.deep_view().skip(li + 1));
            }
            try_match(rest, lits, li + 1, doc.len() - l0len)
        } else {
            None
        }
    }
}

/// Tries capture lengths `k0, k0-1, …, 0` for the hole before segment `li`.
fn try_match(rest: &[u8], lits: &Vec<Vec<u8>>, li: usize, k0: usize) -> (r: Option<Vec<Vec<u8>>>)
    requires
        li < lits@.len(),
        k0 <= rest@.len(),
    ensures
        match r {
            Some(c) => spec_try(rest@, lits.deep_view().skip(li as int), k0 as int) == Some(
                c.deep_view(),
            ),
            None => spec_try(rest@, lits.deep_view().skip(li as int), k0 as int) is None,
        },
    decreases lits@.len() - li, 1int,
{
    broadcast use crate::bytes::lemma_vec_u8_deep_view;

    let ghost l = lits.deep_view().skip(li as int);
    let mut k = k0;
    loop
        invariant
            li < lits@.len(),
            k <= k0 <= rest@.len(),
            l == lits.deep_view().skip(li as int),
            spec_try(rest@, l, k0 as int) == spec_try(rest@, l, k as int),
        decreases k,
    {
        let tail = &rest[k..rest.len()];
        proof {
            assert(tail@ =~= rest@.skip(k as int));
        }
        match anchor_match(tail, lits, li) {
            Some(mut caps) => {
                let ghost capsdv = caps.deep_view();
                let ghost capsv = caps@;
                let mut r: Vec<Vec<u8>> = Vec::new();
                r.push(vstd::slice::slice_to_vec(&rest[0..k]));
                let ghost v0 = r@[0];
                r.append(&mut caps);
                proof {
                    assert(r@ =~= seq![v0] + capsv);
                    assert(v0.deep_view() == v0@);
                    assert(v0@ =~= rest@.take(k as int));
                    assert forall|i: int| 0 <= i < r.deep_view().len() implies r.deep_view()[i]
                        == (seq![rest@.take(k as int)] + capsdv)[i] by {
                        if i == 0 {
                            assert(r@[0] == v0);
                        } else {
                            assert(r@[i] == capsv[i - 1]);
                            assert(capsdv[i - 1] == capsv[i - 1].deep_view());
                        }
                    }
                    assert(r.deep_view() =~= seq![rest@.take(k as int)] + capsdv);
                }
                return Some(r);
            },
            None => {
                if k == 0 {
                    return None;
                }
                k = k - 1;
            },
        }
    }
}

/// The map bound by names and captures, later bindings of a name winning.
pub open spec fn spec_bind(names: Seq<Seq<u8>>, caps: Seq<Seq<u8>>) -> Map<Seq<u8>, Seq<u8>>
    decreases names.len(),
{
    if names.len() == 0 || caps.len() == 0 {
        Map::empty()
    } else {
        Map::<Seq<u8>, Seq<u8>>::empty().insert(names[0], caps[0]).union_prefer_right(
            spec_bind(names.drop_first(), caps.drop_first()),
        )
    }
}

/// Binds names to captures from index `i` on.
fn bind_from(names: &Vec<Vec<u8>>, caps: &Vec<Vec<u8>>, i: usize) -> (r: BindingMap)
    requires
        i <= names@.len(),
        i <= caps@.len(),
    ensures
        r@ == spec_bind(names.deep_view().skip(i as int), caps.deep_view().skip(i as int)),
    decreases names@.len() - i,
{
    broadcast use crate::bytes::lemma_vec_u8_deep_view;

    let ghost ns = names.deep_view().skip(i as int);
    let ghost cs = caps.deep_view().skip(i as int);
    if i == names.len() || i == caps.len() {
        let r = BindingMap::new();
        proof {
            assert(ns.len() == 0 || cs.len() == 0);
        }
        r
    } else {
        let rest = bind_from(names, caps, i + 1);
        let mut r = BindingMap::singleton(
            crate::tree::copy_bytes(&names[i]),
            crate::tree::copy_bytes(&caps[i]),
        );
        r.merge_from(&rest);
        proof {
            assert(ns[0] == names.deep_view()[i as int]);
            assert(cs[0] == caps.deep_view()[i as int]);
            assert(ns.drop_first() =~= names.deep_view().skip(i + 1));
            assert(cs.drop_first() =~= caps.deep_view().skip(i + 1));
        }
        r
    }
}

/// What text matching yields: bindings on success, nothing on failure.
/// A pattern with `{{` and `}}` is matched as a template; an ill-formed
/// template (a `{{` that is never closed) matches nothing here, and pattern
/// construction rejects it up front. Without braces, plain equality.
pub open spec fn spec_match_text(doc: Seq<u8>, pat: Seq<u8>) -> Option<Map<Seq<u8>, Seq<u8>>> {
    if spec_contains(pat, open_braces()) && spec_contains(pat, close_braces()) {
        match spec_scan(pat) {
            None => None,
            Some(ln) => match spec_anchor(doc, ln.0) {
                None => None,
                Some(caps) => Some(spec_bind(ln.1, caps)),
            },
        }
    } else {
        if doc == pat {
            Some(Map::empty())
        } else {
            None
        }
    }
}

/// Matches a text against a pattern text.
pub fn match_text(doc: &[u8], pat: &[u8]) -> (r: Option<BindingMap>)
    ensures
        match r {
            Some(m) => spec_match_text(doc@, pat@) == Some(m@),
            None => spec_match_text(doc@, pat@) is None,
        },
{
    proof {
        assert(OPEN_BRACES@ =~= open_braces());
        assert(CLOSE_BRACES@ =~= close_braces());
    }
    if contains_sub(pat, OPEN_BRACES.as_slice()) && contains_sub(pat, CLOSE_BRACES.as_slice()) {
        match scan_template(pat) {
            None => None,
            Some((lits, names)) => {
                proof {
                    lemma_scan_shape(pat@);
                    assert(lits.deep_view().skip(0) =~= lits.deep_view());
                }
                match anchor_match(doc, &lits, 0) {
                    None => None,
                    Some(caps) => {
                        proof {
                            assert(names.deep_view().skip(0) =~= names.deep_view());
                            assert(caps.deep_view().skip(0) =~= caps.deep_view());
                        }
                        Some(bind_from(&names, &caps, 0))
                    },
                }
            },
        }
    } else {
        if bytes_eq(doc, pat) {
            Some(BindingMap::new())
        } else {
            None
        }
    }
}

} // verus!
