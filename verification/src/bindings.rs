//! Binding maps: variable name to captured text. Combining two maps lets the
//! right one win on a name collision; lookup finds the latest binding.
use vstd::prelude::*;

use crate::bytes::bytes_eq;
use crate::tree::copy_bytes;

verus! {

/// The map described by a list of name/value pairs, later pairs winning.
pub open spec fn pairs_map(ps: Seq<(Seq<u8>, Seq<u8>)>) -> Map<Seq<u8>, Seq<u8>>
    decreases ps.len(),
{
    if ps.len() == 0 {
        Map::empty()
    } else {
        pairs_map(ps.drop_last()).insert(ps.last().0, ps.last().1)
    }
}

/// Concatenating pair lists unites their maps, the right one winning.
pub proof fn lemma_pairs_map_concat(a: Seq<(Seq<u8>, Seq<u8>)>, b: Seq<(Seq<u8>, Seq<u8>)>)
    ensures
        pairs_map(a + b) == pairs_map(a).union_prefer_right(pairs_map(b)),
    decreases b.len(),
{
    if b.len() == 0 {
        assert(a + b =~= a);
        assert(pairs_map(a).union_prefer_right(pairs_map(b)) =~= pairs_map(a));
    } else {
        let b1 = b.drop_last();
        let p = b.last();
        lemma_pairs_map_concat(a, b1);
        assert((a + b).drop_last() =~= a + b1);
        assert((a + b).last() == p);
        assert(pairs_map(a).union_prefer_right(pairs_map(b1)).insert(p.0, p.1) =~= pairs_map(
            a,
        ).union_prefer_right(pairs_map(b1).insert(p.0, p.1)));
    }
}

/// A map from variable names to captured values, both byte strings.
pub struct BindingMap {
    pairs: Vec<(Vec<u8>, Vec<u8>)>,
}

impl View for BindingMap {
    type V = Map<Seq<u8>, Seq<u8>>;

    closed spec fn view(&self) -> Map<Seq<u8>, Seq<u8>> {
        pairs_map(self.pairs.deep_view())
    }
}

impl DeepView for BindingMap {
    type V = Map<Seq<u8>, Seq<u8>>;

    open spec fn deep_view(&self) -> Map<Seq<u8>, Seq<u8>> {
        self.view()
    }
}

impl BindingMap {
    /// The empty binding map.
    pub fn new() -> (r: BindingMap)
        ensures
            r@ == Map::<Seq<u8>, Seq<u8>>::empty(),
    {
        let r = BindingMap { pairs: Vec::new() };
        proof {
            assert(r.pairs.deep_view() =~= Seq::<(Seq<u8>, Seq<u8>)>::empty());
        }
        r
    }

    /// Binds `name` to `value`; a later binding of the same name wins.
    pub fn insert(&mut self, name: Vec<u8>, value: Vec<u8>)
        ensures
            final(self)@ == old(self)@.insert(name@, value@),
    {
        broadcast use crate::bytes::lemma_vec_u8_deep_view;

        let ghost pre = self.pairs.deep_view();
        let ghost pair = (name@, value@);
        self.pairs.push((name, value));
        proof {
            assert(self.pairs.deep_view() =~= pre.push(pair));
            assert(self.pairs.deep_view().drop_last() =~= pre);
        }
    }

    fn get_upto<'a>(&'a self, name: &[u8], i: usize) -> (r: Option<&'a Vec<u8>>)
        requires
            i <= self.pairs@.len(),
        ensures
            match r {
                Some(v) => pairs_map(self.pairs.deep_view().take(i as int)).contains_key(name@)
                    && v@ == pairs_map(self.pairs.deep_view().take(i as int))[name@],
                None => !pairs_map(self.pairs.deep_view().take(i as int)).contains_key(name@),
            },
        decreases i,
    {
        broadcast use crate::bytes::lemma_vec_u8_deep_view;

        let ghost dv = self.pairs.deep_view();
        if i == 0 {
            proof {
                assert(dv.take(0) =~= Seq::<(Seq<u8>, Seq<u8>)>::empty());
            }
            None
        } else {
            proof {
                assert(dv.take(i as int).drop_last() =~= dv.take(i - 1));
                assert(dv.take(i as int).last() == dv[i - 1]);
            }
            let p = &self.pairs[i - 1];
            if bytes_eq(p.0.as_slice(), name) {
                Some(&p.1)
            } else {
                self.get_upto(name, i - 1)
            }
        }
    }

    /// Looks a name up; the latest binding of that name, if any.
    pub fn get<'a>(&'a self, name: &[u8]) -> (r: Option<&'a Vec<u8>>)
        ensures
            match r {
                Some(v) => self@.contains_key(name@) && v@ == self@[name@],
                None => !self@.contains_key(name@),
            },
    {
        let r = self.get_upto(name, self.pairs.len());
        proof {
            assert(self.pairs.deep_view().take(self.pairs@.len() as int) =~= self.pairs.deep_view());
        }
        r
    }

    /// An identical copy.
    pub fn duplicate(&self) -> (r: BindingMap)
        ensures
            r@ == self@,
    {
        broadcast use crate::bytes::lemma_vec_u8_deep_view;

        let mut pairs: Vec<(Vec<u8>, Vec<u8>)> = Vec::new();
        let mut i: usize = 0;
        while i < self.pairs.len()
            invariant
                0 <= i <= self.pairs@.len(),
                pairs@.len() == i,
                forall|j: int|
                    0 <= j < i ==> #[trigger] pairs.deep_view()[j] == self.pairs.deep_view()[j],
            decreases self.pairs@.len() - i,
        {
            let ghost mid = pairs.deep_view();
            let p = &self.pairs[i];
            pairs.push((copy_bytes(&p.0), copy_bytes(&p.1)));
            proof {
                assert(pairs.deep_view() =~= mid.push(self.pairs.deep_view()[i as int]));
            }
            i = i + 1;
        }
        let r = BindingMap { pairs };
        proof {
            assert(r.pairs.deep_view() =~= self.pairs.deep_view());
        }
        r
    }

    /// Adds every binding of `other`, `other` winning on collisions.
    pub fn merge_from(&mut self, other: &BindingMap)
        ensures
            final(self)@ == old(self)@.union_prefer_right(other@),
    {
        broadcast use crate::bytes::lemma_vec_u8_deep_view;

        let ghost pre = self.pairs.deep_view();
        let ghost odv = other.pairs.deep_view();
        let mut i: usize = 0;
        while i < other.pairs.len()
            invariant
                0 <= i <= other.pairs@.len(),
                odv == other.pairs.deep_view(),
                self.pairs.deep_view() =~= pre + odv.take(i as int),
            decreases other.pairs@.len() - i,
        {
            let ghost mid = self.pairs.deep_view();
            let p = &other.pairs[i];
            self.pairs.push((copy_bytes(&p.0), copy_bytes(&p.1)));
            proof {
                assert(self.pairs.deep_view() =~= mid.push(odv[i as int]));
                assert(pre + odv.take(i + 1) =~= (pre + odv.take(i as int)).push(odv[i as int]));
            }
            i = i + 1;
        }
        proof {
            assert(odv.take(odv.len() as int) =~= odv);
            lemma_pairs_map_concat(pre, odv);
        }
    }

    /// A map with exactly one binding.
    pub fn singleton(name: Vec<u8>, value: Vec<u8>) -> (r: BindingMap)
        ensures
            r@ == Map::<Seq<u8>, Seq<u8>>::empty().insert(name@, value@),
    {
        let mut r = BindingMap::new();
        r.insert(name, value);
        r
    }
}

} // verus!
