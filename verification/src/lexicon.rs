//! Placeholder syntax: `{{name}}`, `{{name:*}}`, the sibling-gap marker
//! `...`, and the special `subseq` attribute. These recognizers are the only
//! place the syntax is defined.
use vstd::prelude::*;

use crate::bytes::{
    bytes_eq, ends_with, find_sub, spec_ends_with, spec_find, spec_starts_with, spec_trim,
    starts_with, trim,
};

verus! {

/// The bytes of `{{`.
pub open spec fn open_braces() -> Seq<u8> {
    seq![123u8, 123u8]
}

/// The bytes of `}}`.
pub open spec fn close_braces() -> Seq<u8> {
    seq![125u8, 125u8]
}

/// The bytes of the skip marker `...`.
pub open spec fn skip_marker() -> Seq<u8> {
    seq![46u8, 46u8, 46u8]
}

/// The bytes of the special attribute name `subseq`.
pub open spec fn subseq_name() -> Seq<u8> {
    seq![115u8, 117u8, 98u8, 115u8, 101u8, 113u8]
}

pub const OPEN_BRACES: [u8; 2] = [123, 123];

pub const CLOSE_BRACES: [u8; 2] = [125, 125];

pub const SKIP_MARKER: [u8; 3] = [46, 46, 46];

pub const SUBSEQ_NAME: [u8; 6] = [115, 117, 98, 115, 101, 113];

/// A placeholder: its name, and whether it is the whole-subtree form
/// `{{name:*}}`.
pub struct Variable {
    pub name: Vec<u8>,
    pub whole: bool,
}

/// Recognizes a placeholder in trimmed `s`: `{{` … `}}`, the inside split at
/// its first `:`; no colon is a plain variable, a suffix of exactly `*` the
/// whole-subtree form, any other suffix no variable at all.
pub open spec fn spec_is_var(s: Seq<u8>) -> Option<(Seq<u8>, bool)> {
    let t = spec_trim(s);
    if t.len() >= 4 && spec_starts_with(t, open_braces()) && spec_ends_with(t, close_braces()) {
        let inner = t.subrange(2, t.len() - 2);
        match spec_find(inner, seq![58u8]) {
            None => Some((inner, false)),
            Some(ix) => if ix + 2 == inner.len() && inner[ix + 1] == 42 {
                Some((inner.take(ix), true))
            } else {
                None
            },
        }
    } else {
        None
    }
}

/// Recognizes a skip marker: trimmed `s` is exactly `...`.
pub open spec fn spec_is_skip(s: Seq<u8>) -> bool {
    spec_trim(s) == skip_marker()
}

/// Recognizes the special attribute: its local name is `subseq`.
pub open spec fn spec_is_special_attr(local: Seq<u8>) -> bool {
    local == subseq_name()
}

pub fn is_var(s: &[u8]) -> (r: Option<Variable>)
    ensures
        match r {
            Some(v) => spec_is_var(s@) == Some((v.name@, v.whole)),
            None => spec_is_var(s@) is None,
        },
{
    let t = trim(s);
    proof {
        assert(OPEN_BRACES@ =~= open_braces());
        assert(CLOSE_BRACES@ =~= close_braces());
    }
    if t.len() < 4 || !starts_with(t.as_slice(), OPEN_BRACES.as_slice()) || !ends_with(
        t.as_slice(),
        CLOSE_BRACES.as_slice(),
    ) {
        return None;
    }
    let inner = vstd::slice::slice_to_vec(&t.as_slice()[2..t.len() - 2]);
    let colon: [u8; 1] = [58];
    proof {
        assert(colon@ =~= seq![58u8]);
    }
    match find_sub(inner.as_slice(), colon.as_slice()) {
        None => Some(Variable { name: inner, whole: false }),
        Some(ix) => {
            proof {
                crate::bytes::lemma_find_from_bounds(inner@, seq![58u8], 0);
            }
            if ix + 2 == inner.len() && inner[ix + 1] == 42 {
                let name = vstd::slice::slice_to_vec(&inner.as_slice()[0..ix]);
                proof {
                    assert(inner@.subrange(0, ix as int) =~= inner@.take(ix as int));
                }
                Some(Variable { name, whole: true })
            } else {
                None
            }
        },
    }
}

pub fn is_skip(s: &[u8]) -> (r: bool)
    ensures
        r == spec_is_skip(s@),
{
    let t = trim(s);
    proof {
        assert(SKIP_MARKER@ =~= skip_marker());
    }
    bytes_eq(t.as_slice(), SKIP_MARKER.as_slice())
}

pub fn is_special_attr(local: &[u8]) -> (r: bool)
    ensures
        r == spec_is_special_attr(local@),
{
    proof {
        assert(SUBSEQ_NAME@ =~= subseq_name());
    }
    bytes_eq(local, SUBSEQ_NAME.as_slice())
}

} // verus!
