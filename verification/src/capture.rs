//! Narrowing a loaded tree by XPath, then filtering it.
use vstd::prelude::*;

use crate::config::AppConfig;
use crate::filter::{filter_tree, filtered};
use crate::model::{lemma_view_nodes, NodeView, UiNode};
use crate::xpath::{select_spec, SegmentView, XPath};

verus! {

/// The node that stands for several XPath matches: named `XPathMatches`, no role, no
/// attributes, the matches as children.
pub open spec fn matches_holder(m: Seq<NodeView>) -> NodeView {
    NodeView { name: "XPathMatches"@, role: None, attributes: Seq::empty(), children: m }
}

/// The view of an optional path.
pub open spec fn xpath_view(x: Option<XPath>) -> Option<Seq<SegmentView>> {
    match x {
        Some(p) => Some(p@),
        None => None,
    }
}

/// The tree that a path leaves: the whole tree without a path, otherwise the single
/// match or a holder of all matches (none when nothing matches).
pub open spec fn narrowed_by(tree: NodeView, xpath: Option<Seq<SegmentView>>) -> Option<NodeView> {
    match xpath {
        None => Some(tree),
        Some(x) => {
            let m = select_spec(tree, x);
            if m.len() == 0 {
                None
            } else if m.len() == 1 {
                Some(m[0])
            } else {
                Some(matches_holder(m))
            }
        },
    }
}

/// The tree to filter under `config`.
pub open spec fn narrowed(tree: NodeView, config: AppConfig) -> Option<NodeView> {
    narrowed_by(tree, xpath_view(config.xpath))
}

/// The result of a capture of `tree` under `config`.
pub open spec fn captured(tree: NodeView, config: AppConfig) -> Option<NodeView> {
    match narrowed(tree, config) {
        None => None,
        Some(t) => filtered(t, config.filter),
    }
}

/// Applies a path (if any) to a tree: the whole tree, the single match, or a holder
/// named `XPathMatches` of all matches; `None` when the path selects nothing.
pub fn narrow_tree(tree: &UiNode, xpath: &Option<XPath>) -> (r: Option<UiNode>)
    ensures
        match r {
            Some(x) => narrowed_by(tree@, xpath_view(*xpath)) == Some(x@),
            None => narrowed_by(tree@, xpath_view(*xpath)) is None,
        },
{
    match xpath {
        None => Some(tree.clone_node()),
        Some(path) => {
            let mut matches = path.select(tree);
            proof {
                lemma_view_nodes(matches@);
            }
            if matches.len() == 0 {
                return None;
            }
            if matches.len() == 1 {
                matches.pop()
            } else {
                let holder = UiNode {
                    name: String::from_str("XPathMatches"),
                    role: None,
                    attributes: Vec::new(),
                    children: matches,
                };
                assert(crate::keyed::pairs_view(holder.attributes@) =~= Seq::<(Seq<char>, crate::model::JsonView)>::empty());
                Some(holder)
            }
        },
    }
}

/// Applies the XPath of `config` (if any) to the loaded tree, then its filter.
/// `None` when the XPath selects nothing or the filter leaves nothing.
pub fn capture_tree(tree: &UiNode, config: &AppConfig) -> (r: Option<UiNode>)
    ensures
        match r {
            Some(x) => captured(tree@, *config) == Some(x@),
            None => captured(tree@, *config) is None,
        },
{
    match &config.xpath {
        None => filter_tree(tree, &config.filter),
        Some(_) => match narrow_tree(tree, &config.xpath) {
            None => None,
            Some(t) => filter_tree(&t, &config.filter),
        },
    }
}

} // verus!
