//! Pattern construction diagnostics: the parser's error messages, with the
//! tokenizer notice "Unexpected token" discarded, de-duplicated keeping the
//! first occurrence of each, and joined with ", ".
use vstd::prelude::*;

use vstd::string::StringExecFns;

verus! {

/// The parser notice that construction tolerates.
pub open spec fn unexpected_token_msg() -> Seq<char> {
    "Unexpected token"@
}

/// The separator between joined error messages.
pub open spec fn error_separator() -> Seq<char> {
    ", "@
}

/// The diagnostics without the tolerated notice, in order.
pub open spec fn spec_filter_errors(errs: Seq<Seq<char>>) -> Seq<Seq<char>>
    decreases errs.len(),
{
    if errs.len() == 0 {
        Seq::empty()
    } else {
        spec_filter_errors(errs.drop_last()) + if errs.last() == unexpected_token_msg() {
            Seq::empty()
        } else {
            seq![errs.last()]
        }
    }
}

/// First occurrence of each message, in first-seen order.
pub open spec fn spec_dedup(s: Seq<Seq<char>>) -> Seq<Seq<char>>
    decreases s.len(),
{
    if s.len() == 0 {
        Seq::empty()
    } else {
        let pre = spec_dedup(s.drop_last());
        if pre.contains(s.last()) {
            pre
        } else {
            pre.push(s.last())
        }
    }
}

/// The diagnostics that remain after filtering and de-duplication.
pub open spec fn spec_clean_errors(errs: Seq<Seq<char>>) -> Seq<Seq<char>> {
    spec_dedup(spec_filter_errors(errs))
}

/// The cleaned diagnostics joined with ", ".
pub open spec fn spec_join_errors(errs: Seq<Seq<char>>) -> Seq<char>
    decreases errs.len(),
{
    if errs.len() == 0 {
        Seq::empty()
    } else if errs.len() == 1 {
        errs[0]
    } else {
        spec_join_errors(errs.drop_last()) + error_separator() + errs.last()
    }
}

fn contains_string(v: &Vec<String>, s: &String) -> (r: bool)
    ensures
        r == v.deep_view().contains(s@),
{
    let mut i: usize = 0;
    while i < v.len()
        invariant
            0 <= i <= v@.len(),
            forall|j: int| 0 <= j < i ==> v.deep_view()[j] != s@,
        decreases v@.len() - i,
    {
        if v[i].eq(s) {
            proof {
                assert(v.deep_view()[i as int] == s@);
            }
            return true;
        }
        proof {
            assert(v.deep_view()[i as int] == v@[i as int]@);
        }
        i = i + 1;
    }
    proof {
        assert forall|j: int| 0 <= j < v.deep_view().len() implies v.deep_view()[j] != s@ by {}
    }
    false
}

/// Filters and de-duplicates the parser's diagnostics.
pub fn clean_errors(errs: &Vec<String>) -> (r: Vec<String>)
    ensures
        r.deep_view() == spec_clean_errors(errs.deep_view()),
{
    let ghost edv = errs.deep_view();
    let ut: String = "Unexpected token".to_owned();
    let mut r: Vec<String> = Vec::new();
    proof {
        assert(edv.take(0) =~= Seq::<Seq<char>>::empty());
        assert(spec_filter_errors(Seq::<Seq<char>>::empty()) =~= Seq::<Seq<char>>::empty());
        assert(r.deep_view() =~= Seq::<Seq<char>>::empty());
    }
    let mut i: usize = 0;
    while i < errs.len()
        invariant
            0 <= i <= errs@.len(),
            edv == errs.deep_view(),
            ut@ == unexpected_token_msg(),
            r.deep_view() == spec_dedup(spec_filter_errors(edv.take(i as int))),
        decreases errs@.len() - i,
    {
        let ghost pre = r.deep_view();
        proof {
            assert(edv.take(i + 1).drop_last() =~= edv.take(i as int));
            assert(edv.take(i + 1).last() == edv[i as int]);
            assert(edv[i as int] == errs@[i as int]@);
        }
        let e = &errs[i];
        if !e.eq(&ut) {
            proof {
                let f = spec_filter_errors(edv.take(i as int));
                assert(spec_filter_errors(edv.take(i + 1)) =~= f + seq![edv[i as int]]);
                assert((f + seq![edv[i as int]]).drop_last() =~= f);
                assert((f + seq![edv[i as int]]).last() == edv[i as int]);
            }
            if !contains_string(&r, e) {
                let ghost ev = e@;
                r.push(e.clone());
                proof {
                    assert(r.deep_view() =~= pre.push(ev));
                }
            }
        } else {
            proof {
                assert(spec_filter_errors(edv.take(i + 1)) =~= spec_filter_errors(
                    edv.take(i as int),
                ));
            }
        }
        i = i + 1;
    }
    proof {
        assert(edv.take(edv.len() as int) =~= edv);
    }
    r
}

/// Joins the cleaned diagnostics with ", ".
pub fn join_errors(errs: &Vec<String>) -> (r: String)
    ensures
        r@ == spec_join_errors(errs.deep_view()),
{
    let ghost edv = errs.deep_view();
    let mut out = String::new();
    let mut i: usize = 0;
    while i < errs.len()
        invariant
            0 <= i <= errs@.len(),
            edv == errs.deep_view(),
            out@ == spec_join_errors(edv.take(i as int)),
        decreases errs@.len() - i,
    {
        proof {
            assert(edv.take(i + 1).drop_last() =~= edv.take(i as int));
            assert(edv.take(i + 1).last() == edv[i as int]);
            assert(edv[i as int] == errs@[i as int]@);
        }
        if i > 0 {
            out.append(", ");
            proof {
                assert(", "@ == error_separator());
            }
        } else {
            proof {
                assert(out@ =~= Seq::<char>::empty());
            }
        }
        out.append(errs[i].as_str());
        proof {
            if i == 0 {
                assert(edv.take(1)[0] == edv[0]);
                assert(out@ =~= spec_join_errors(edv.take(1)));
            }
        }
        i = i + 1;
    }
    proof {
        assert(edv.take(edv.len() as int) =~= edv);
    }
    out
}

} // verus!
