//! HTML scraping by example. A pattern is written as an HTML fragment with
//! named holes: `{{name}}` captures a text or attribute span, `{{name:*}}` a
//! whole serialized subtree, `...` stands for any run of siblings, and a
//! bare `subseq` attribute lets an element's children match as a
//! subsequence. Matching a document yields every embedding of the pattern as
//! a tree subset of the document, each with its map of captured values.
use vstd::prelude::*;

pub mod attrs;
pub mod bindings;
pub mod bytes;
pub mod dom;
pub mod errors;
pub mod laws;
pub mod lexicon;
pub mod matcher;
pub mod normalize;
pub mod serialize;
pub mod text;
pub mod tree;
pub mod wf;

verus! {

use crate::bindings::BindingMap;
use crate::dom::{convert_tree, doc_tree_of, parse_document, parse_errors_of};
use crate::errors::{clean_errors, join_errors, spec_clean_errors, spec_join_errors};
use crate::matcher::{match_subtree, s_match_subtree};
use crate::normalize::{normalize, spec_normalize};
use crate::tree::{node_model, Node, NodeModel};
use crate::wf::{check_pattern, wf_pattern};

/// The message that construction returns for an ill-formed pattern.
pub open spec fn ill_formed_msg() -> Seq<char> {
    "ill-formed pattern: a whole-subtree placeholder must be the sole child of its element and may not stand in an attribute value, and every {{ must be closed"@
}

/// A compiled pattern: the pattern string parsed once with diagnostics
/// collected, normalized, and checked for well-formedness; immutable
/// afterwards, so one value can serve any number of `matches` calls.
pub struct Pattern {
    root: Node,
}

impl View for Pattern {
    type V = NodeModel;

    closed spec fn view(&self) -> NodeModel {
        node_model(self.root)
    }
}

impl Pattern {
    /// The pattern tree is well formed.
    pub open spec fn wf(&self) -> bool {
        wf_pattern(self@)
    }

    /// Compiles a pattern string. Construction fails with the parser's
    /// cleaned-up diagnostics, joined with ", ", when the strict parse
    /// reports any; and with a fixed message when the normalized tree is
    /// ill formed (a whole-subtree placeholder not the sole child of its
    /// element or inside an attribute value, or an unclosed `{{`).
    pub fn new(pattern_str: &str) -> (r: Result<Pattern, String>)
        ensures
            match r {
                Ok(p) => {
                    &&& spec_clean_errors(parse_errors_of(pattern_str@)).len() == 0
                    &&& spec_normalize(doc_tree_of(pattern_str@)) == Some(p@)
                    &&& p.wf()
                },
                Err(e) => {
                    ||| (spec_clean_errors(parse_errors_of(pattern_str@)).len() > 0 && e@
                        == spec_join_errors(spec_clean_errors(parse_errors_of(pattern_str@))))
                    ||| (spec_clean_errors(parse_errors_of(pattern_str@)).len() == 0
                        && (spec_normalize(doc_tree_of(pattern_str@)) matches Some(t)
                        && !wf_pattern(t)) && e@ == ill_formed_msg())
                },
            },
    {
        let (root_ref, errs) = parse_document(pattern_str);
        let cleaned = clean_errors(&errs);
        if cleaned.len() > 0 {
            return Err(join_errors(&cleaned));
        }
        let tree = convert_tree(&root_ref);
        proof {
            assert(tree.deep_view() is Document);
            assert(spec_normalize(tree.deep_view()) is Some);
        }
        match normalize(&tree) {
            Some(root) => {
                if check_pattern(&root) {
                    Ok(Pattern { root })
                } else {
                    Err(
                        "ill-formed pattern: a whole-subtree placeholder must be the sole child of its element and may not stand in an attribute value, and every {{ must be closed".to_owned(),
                    )
                }
            },
            None => {
                proof {
                    assert(false);
                }
                Err(String::new())
            },
        }
    }

    /// Matches an HTML document against the pattern: the document is parsed
    /// leniently (parse errors are tolerated) and normalized, and every
    /// embedding of the pattern yields one binding map, in traversal order.
    pub fn matches(&self, html: &str) -> (r: Vec<BindingMap>)
        ensures
            spec_normalize(doc_tree_of(html@)) matches Some(d) && r.deep_view()
                == s_match_subtree(d, self@, false),
    {
        let (root_ref, _) = parse_document(html);
        let tree = convert_tree(&root_ref);
        proof {
            assert(tree.deep_view() is Document);
            assert(spec_normalize(tree.deep_view()) is Some);
        }
        match normalize(&tree) {
            Some(doc) => match_subtree(&doc, &self.root, false),
            None => {
                proof {
                    assert(false);
                }
                Vec::new()
            },
        }
    }
}

} // verus!
