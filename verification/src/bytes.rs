//! Byte-string utilities: ASCII-whitespace trimming, substring search and
//! whitespace-separated tokens, each with an exact specification.
use vstd::prelude::*;

verus! {

/// For byte strings the deep view coincides with the view.
pub broadcast proof fn lemma_vec_u8_deep_view(v: Vec<u8>)
    ensures
        #[trigger] v.deep_view() == v@,
{
    assert(v.deep_view() =~= v@);
}

/// ASCII whitespace: space, tab, line feed, form feed, carriage return.
pub open spec fn spec_is_space(b: u8) -> bool {
    b == 32 || b == 9 || b == 10 || b == 12 || b == 13
}

pub fn is_space(b: u8) -> (r: bool)
    ensures
        r == spec_is_space(b),
{
    b == 32 || b == 9 || b == 10 || b == 12 || b == 13
}

pub open spec fn spec_trim_front(s: Seq<u8>) -> Seq<u8>
    decreases s.len(),
{
    if s.len() == 0 {
        s
    } else if spec_is_space(s[0]) {
        spec_trim_front(s.drop_first())
    } else {
        s
    }
}

pub open spec fn spec_trim_back(s: Seq<u8>) -> Seq<u8>
    decreases s.len(),
{
    if s.len() == 0 {
        s
    } else if spec_is_space(s.last()) {
        spec_trim_back(s.drop_last())
    } else {
        s
    }
}

/// The byte string with ASCII whitespace removed from both ends.
pub open spec fn spec_trim(s: Seq<u8>) -> Seq<u8> {
    spec_trim_back(spec_trim_front(s))
}

proof fn lemma_trim_front_step(s: Seq<u8>, lo: int)
    requires
        0 <= lo < s.len(),
        spec_is_space(s[lo]),
        spec_trim_front(s) == spec_trim_front(s.skip(lo)),
    ensures
        spec_trim_front(s) == spec_trim_front(s.skip(lo + 1)),
{
    assert(s.skip(lo).drop_first() =~= s.skip(lo + 1));
}

proof fn lemma_trim_back_step(s: Seq<u8>, lo: int, hi: int)
    requires
        0 <= lo < hi <= s.len(),
        spec_is_space(s[hi - 1]),
        spec_trim_back(s.skip(lo)) == spec_trim_back(s.subrange(lo, hi)),
    ensures
        spec_trim_back(s.skip(lo)) == spec_trim_back(s.subrange(lo, hi - 1)),
{
    assert(s.subrange(lo, hi).drop_last() =~= s.subrange(lo, hi - 1));
}

/// Copy of `s` with ASCII whitespace removed from both ends.
pub fn trim(s: &[u8]) -> (r: Vec<u8>)
    ensures
        r@ == spec_trim(s@),
{
    let ghost sq = s@;
    proof {
        assert(sq.skip(0) =~= sq);
    }
    let mut lo: usize = 0;
    while lo < s.len() && is_space(s[lo])
        invariant
            0 <= lo <= sq.len(),
            sq == s@,
            spec_trim_front(sq) == spec_trim_front(sq.skip(lo as int)),
        decreases sq.len() - lo,
    {
        proof {
            lemma_trim_front_step(sq, lo as int);
        }
        lo = lo + 1;
    }
    proof {
        if lo < sq.len() {
            assert(sq.skip(lo as int)[0] == sq[lo as int]);
            assert(spec_trim_front(sq) == sq.skip(lo as int));
        } else {
            assert(sq.skip(lo as int) =~= Seq::<u8>::empty());
            assert(spec_trim_front(sq) == sq.skip(lo as int));
        }
    }
    let mut hi: usize = s.len();
    while hi > lo && is_space(s[hi - 1])
        invariant
            lo <= hi <= sq.len(),
            sq == s@,
            spec_trim_front(sq) == sq.skip(lo as int),
            spec_trim_back(sq.skip(lo as int)) == spec_trim_back(sq.subrange(lo as int, hi as int)),
        decreases hi,
    {
        proof {
            if hi == sq.len() {
                assert(sq.skip(lo as int) =~= sq.subrange(lo as int, hi as int));
            }
            lemma_trim_back_step(sq, lo as int, hi as int);
        }
        hi = hi - 1;
    }
    proof {
        if hi == sq.len() {
            assert(sq.skip(lo as int) =~= sq.subrange(lo as int, hi as int));
        }
        let t = sq.subrange(lo as int, hi as int);
        if hi > lo {
            assert(t.last() == sq[hi - 1]);
            assert(spec_trim_back(t) == t);
        } else {
            assert(t =~= Seq::<u8>::empty());
            assert(spec_trim_back(t) == t);
        }
        assert(spec_trim(sq) == sq.subrange(lo as int, hi as int));
    }
    let mut r: Vec<u8> = Vec::new();
    let mut i: usize = lo;
    while i < hi
        invariant
            lo <= i <= hi <= sq.len(),
            sq == s@,
            r@ == sq.subrange(lo as int, i as int),
        decreases hi - i,
    {
        r.push(s[i]);
        proof {
            assert(sq.subrange(lo as int, i + 1) =~= sq.subrange(lo as int, i as int).push(
                sq[i as int],
            ));
        }
        i = i + 1;
    }
    proof {
        assert(r@ == spec_trim(sq));
    }
    r
}

/// Trimming is idempotent.
pub proof fn lemma_trim_idempotent(s: Seq<u8>)
    ensures
        spec_trim(spec_trim(s)) == spec_trim(s),
{
    lemma_trim_front_no_front_space(s);
    lemma_trim_back_no_back_space(spec_trim_front(s));
    let t = spec_trim(s);
    if t.len() > 0 {
        lemma_trim_back_prefix_keeps_front(spec_trim_front(s));
        assert(!spec_is_space(t[0]));
        assert(spec_trim_front(t) == t);
        assert(!spec_is_space(t.last()));
        assert(spec_trim_back(t) == t);
    } else {
        assert(t =~= Seq::<u8>::empty());
    }
}

/// After trim_front, the first byte (if any) is not whitespace.
proof fn lemma_trim_front_no_front_space(s: Seq<u8>)
    ensures
        spec_trim_front(s).len() > 0 ==> !spec_is_space(spec_trim_front(s)[0]),
    decreases s.len(),
{
    if s.len() > 0 && spec_is_space(s[0]) {
        lemma_trim_front_no_front_space(s.drop_first());
    }
}

/// After trim_back, the last byte (if any) is not whitespace.
proof fn lemma_trim_back_no_back_space(s: Seq<u8>)
    ensures
        spec_trim_back(s).len() > 0 ==> !spec_is_space(spec_trim_back(s).last()),
    decreases s.len(),
{
    if s.len() > 0 && spec_is_space(s.last()) {
        lemma_trim_back_no_back_space(s.drop_last());
    }
}

/// trim_back keeps a prefix of the string, so the first byte is unchanged.
proof fn lemma_trim_back_prefix_keeps_front(s: Seq<u8>)
    ensures
        spec_trim_back(s).len() > 0 ==> spec_trim_back(s)[0] == s[0],
    decreases s.len(),
{
    if s.len() > 0 && spec_is_space(s.last()) {
        lemma_trim_back_prefix_keeps_front(s.drop_last());
    }
}

/// Byte-string equality.
pub fn bytes_eq(a: &[u8], b: &[u8]) -> (r: bool)
    ensures
        r == (a@ == b@),
{
    if a.len() != b.len() {
        return false;
    }
    let mut i: usize = 0;
    while i < a.len()
        invariant
            a@.len() == b@.len(),
            0 <= i <= a@.len(),
            forall|j: int| 0 <= j < i ==> a@[j] == b@[j],
        decreases a@.len() - i,
    {
        if a[i] != b[i] {
            return false;
        }
        i = i + 1;
    }
    proof {
        assert(a@ =~= b@);
    }
    true
}

/// `p` occurs in `s` at position `i`.
pub open spec fn spec_match_at(s: Seq<u8>, p: Seq<u8>, i: int) -> bool {
    0 <= i && i + p.len() <= s.len() && s.subrange(i, i + p.len()) == p
}

/// The first position at or after `i` where `p` occurs in `s`.
pub open spec fn spec_find_from(s: Seq<u8>, p: Seq<u8>, i: int) -> Option<int>
    decreases s.len() + 1 - i,
{
    if i + p.len() > s.len() {
        None
    } else if s.subrange(i, i + p.len()) == p {
        Some(i)
    } else {
        spec_find_from(s, p, i + 1)
    }
}

/// A found position lies within `s`, with room for `p` after it.
pub proof fn lemma_find_from_bounds(s: Seq<u8>, p: Seq<u8>, from: int)
    requires
        spec_find_from(s, p, from) is Some,
    ensures
        from <= spec_find_from(s, p, from)->Some_0,
        spec_find_from(s, p, from)->Some_0 + p.len() <= s.len(),
        spec_match_at(s, p, spec_find_from(s, p, from)->Some_0) || from < 0,
    decreases s.len() + 1 - from,
{
    if from + p.len() > s.len() {
    } else if s.subrange(from, from + p.len()) == p {
    } else {
        lemma_find_from_bounds(s, p, from + 1);
    }
}

/// The first occurrence of `p` in `s`.
pub open spec fn spec_find(s: Seq<u8>, p: Seq<u8>) -> Option<int> {
    spec_find_from(s, p, 0)
}

pub open spec fn spec_contains(s: Seq<u8>, p: Seq<u8>) -> bool {
    spec_find(s, p) is Some
}

/// First occurrence of `p` in `s` at or after `from`.
pub fn find_sub_from(s: &[u8], p: &[u8], from: usize) -> (r: Option<usize>)
    requires
        0 <= from <= s@.len(),
    ensures
        match r {
            Some(ix) => spec_find_from(s@, p@, from as int) == Some(ix as int),
            None => spec_find_from(s@, p@, from as int) is None,
        },
{
    let mut i: usize = from;
    loop
        invariant
            from <= i <= s@.len() + 1,
            spec_find_from(s@, p@, from as int) == spec_find_from(s@, p@, i as int),
        decreases s@.len() + 1 - i,
    {
        if p.len() > s.len() || i > s.len() - p.len() {
            return None;
        }
        if bytes_eq(&s[i..i + p.len()], p) {
            proof {
                assert(s@.subrange(i as int, i + p@.len()) == p@);
            }
            return Some(i);
        }
        proof {
            if p@.len() == 0 {
                assert(s@.subrange(i as int, i + p@.len()) =~= p@);
            }
        }
        i = i + 1;
    }
}

pub fn find_sub(s: &[u8], p: &[u8]) -> (r: Option<usize>)
    ensures
        match r {
            Some(ix) => spec_find(s@, p@) == Some(ix as int),
            None => spec_find(s@, p@) is None,
        },
{
    find_sub_from(s, p, 0)
}

pub fn contains_sub(s: &[u8], p: &[u8]) -> (r: bool)
    ensures
        r == spec_contains(s@, p@),
{
    find_sub(s, p).is_some()
}

pub open spec fn spec_starts_with(s: Seq<u8>, p: Seq<u8>) -> bool {
    p.len() <= s.len() && s.subrange(0, p.len() as int) == p
}

pub open spec fn spec_ends_with(s: Seq<u8>, p: Seq<u8>) -> bool {
    p.len() <= s.len() && s.subrange(s.len() - p.len(), s.len() as int) == p
}

pub fn starts_with(s: &[u8], p: &[u8]) -> (r: bool)
    ensures
        r == spec_starts_with(s@, p@),
{
    if p.len() > s.len() {
        return false;
    }
    bytes_eq(&s[0..p.len()], p)
}

pub fn ends_with(s: &[u8], p: &[u8]) -> (r: bool)
    ensures
        r == spec_ends_with(s@, p@),
{
    if p.len() > s.len() {
        return false;
    }
    bytes_eq(&s[s.len() - p.len()..s.len()], p)
}

/// Length of the maximal non-whitespace prefix.
pub open spec fn spec_token_len(s: Seq<u8>) -> nat
    decreases s.len(),
{
    if s.len() == 0 || spec_is_space(s[0]) {
        0
    } else {
        1 + spec_token_len(s.drop_first())
    }
}

proof fn lemma_token_len_le(s: Seq<u8>)
    ensures
        spec_token_len(s) <= s.len(),
    decreases s.len(),
{
    if s.len() > 0 && !spec_is_space(s[0]) {
        lemma_token_len_le(s.drop_first());
    }
}

/// The whitespace-separated tokens of `s`, in order.
pub open spec fn spec_tokens(s: Seq<u8>) -> Seq<Seq<u8>>
    decreases s.len(),
    via spec_tokens_decreases
{
    if s.len() == 0 {
        Seq::empty()
    } else if spec_is_space(s[0]) {
        spec_tokens(s.drop_first())
    } else {
        seq![s.take(spec_token_len(s) as int)] + spec_tokens(s.skip(spec_token_len(s) as int))
    }
}

#[via_fn]
proof fn spec_tokens_decreases(s: Seq<u8>) {
    if s.len() > 0 && !spec_is_space(s[0]) {
        lemma_token_len_le(s);
    }
}

proof fn lemma_token_len_step(s: Seq<u8>, j: int)
    requires
        0 <= j < s.len(),
        !spec_is_space(s[j]),
    ensures
        spec_token_len(s.skip(j)) == 1 + spec_token_len(s.skip(j + 1)),
{
    assert(s.skip(j)[0] == s[j]);
    assert(s.skip(j).drop_first() =~= s.skip(j + 1));
}

proof fn lemma_tokens_skip_space(s: Seq<u8>, i: int)
    requires
        0 <= i < s.len(),
        spec_is_space(s[i]),
    ensures
        spec_tokens(s.skip(i)) == spec_tokens(s.skip(i + 1)),
{
    assert(s.skip(i)[0] == s[i]);
    assert(s.skip(i).drop_first() =~= s.skip(i + 1));
}

/// The whitespace-separated tokens of the suffix of `s` starting at `i`.
fn tokens_from(s: &[u8], i: usize) -> (r: Vec<Vec<u8>>)
    requires
        0 <= i <= s@.len(),
    ensures
        r.deep_view() == spec_tokens(s@.skip(i as int)),
    decreases s@.len() - i,
{
    let mut i = i;
    let ghost i0 = i as int;
    while i < s.len() && is_space(s[i])
        invariant
            i0 <= i <= s@.len(),
            spec_tokens(s@.skip(i0)) == spec_tokens(s@.skip(i as int)),
        decreases s@.len() - i,
    {
        proof {
            lemma_tokens_skip_space(s@, i as int);
        }
        i = i + 1;
    }
    if i == s.len() {
        let r: Vec<Vec<u8>> = Vec::new();
        proof {
            assert(s@.skip(i as int) =~= Seq::<u8>::empty());
            assert(r.deep_view() =~= spec_tokens(s@.skip(i0)));
        }
        return r;
    }
    let tok_start = i;
    let mut j = i;
    while j < s.len() && !is_space(s[j])
        invariant
            tok_start <= j <= s@.len(),
            tok_start < s@.len(),
            !spec_is_space(s@[tok_start as int]),
            spec_token_len(s@.skip(tok_start as int)) == (j - tok_start) + spec_token_len(
                s@.skip(j as int),
            ),
        decreases s@.len() - j,
    {
        proof {
            lemma_token_len_step(s@, j as int);
        }
        j = j + 1;
    }
    proof {
        if j < s@.len() {
            assert(s@.skip(j as int)[0] == s@[j as int]);
        } else {
            assert(s@.skip(j as int) =~= Seq::<u8>::empty());
        }
        assert(spec_token_len(s@.skip(j as int)) == 0);
        assert(spec_token_len(s@.skip(tok_start as int)) == j - tok_start);
    }
    let tok = vstd::slice::slice_to_vec(&s[tok_start..j]);
    let rest = tokens_from(s, j);
    let mut r: Vec<Vec<u8>> = Vec::new();
    r.push(tok);
    let ghost r1 = r.deep_view();
    let mut rest = rest;
    let ghost restdv = rest.deep_view();
    r.append(&mut rest);
    proof {
        let tl = spec_token_len(s@.skip(tok_start as int)) as int;
        assert(s@.skip(tok_start as int).take(tl) =~= s@.subrange(tok_start as int, j as int));
        assert(s@.skip(tok_start as int).skip(tl) =~= s@.skip(j as int));
        assert(r.deep_view() =~= r1 + restdv);
        broadcast use lemma_vec_u8_deep_view;

        assert(r1.len() == 1 && r1[0] == tok.deep_view());
        assert(r1 =~= seq![s@.subrange(tok_start as int, j as int)]);
        assert(r.deep_view() =~= spec_tokens(s@.skip(tok_start as int)));
        assert(spec_tokens(s@.skip(i0)) == spec_tokens(s@.skip(tok_start as int)));
    }
    r
}

/// The whitespace-separated tokens of `s`.
pub fn tokens(s: &[u8]) -> (r: Vec<Vec<u8>>)
    ensures
        r.deep_view() == spec_tokens(s@),
{
    let r = tokens_from(s, 0);
    proof {
        assert(s@.skip(0) =~= s@);
    }
    r
}

} // verus!
