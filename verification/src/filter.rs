//! Pruning a UI tree down to the nodes that match name, role and attribute criteria.
use vstd::prelude::*;

use crate::keyed::lookup;
use crate::model::{
    clone_attributes, clone_opt_string, height, json_value_to_string, lemma_view_nodes,
    lemma_view_nodes_push, max_height, plain_text, view_node, view_nodes, NodeView, UiNode,
};
use crate::text::{contains, contains_str, eq_ignore_ascii_case, eq_ignore_case, lowercase, str_eq,
    to_lowercase};

verus! {

/// What a node must satisfy to be kept.
#[derive(Debug)]
pub struct FilterConfig {
    /// Nodes deeper than this (the root has depth 0) are dropped.
    pub max_depth: Option<usize>,
    /// Keep the ancestors of matching nodes; otherwise matching descendants are lifted
    /// into the nearest kept ancestor.
    pub include_ancestors: bool,
    /// Lower-case text that the lower-cased node name must contain.
    pub name_substring: Option<String>,
    /// The role that the node's role must equal (lower-cased, or up to ASCII case).
    pub role: Option<String>,
    /// Attribute keys with the lower-cased rendering their value must have.
    pub attr_equals: Vec<(String, String)>,
}

impl Default for FilterConfig {
    fn default() -> (r: Self)
        ensures
            r.max_depth is None,
            !r.include_ancestors,
            r.name_substring is None,
            r.role is None,
            r.attr_equals@.len() == 0,
    {
        FilterConfig {
            max_depth: None,
            include_ancestors: false,
            name_substring: None,
            role: None,
            attr_equals: Vec::new(),
        }
    }
}

/// The node satisfies every criterion of `cfg`.
pub open spec fn matches_spec(cfg: FilterConfig, n: NodeView) -> bool {
    &&& (cfg.name_substring matches Some(name) ==> contains(lowercase(n.name), name@))
    &&& (cfg.role matches Some(role) ==> (n.role matches Some(nr) && (lowercase(nr) == role@
        || eq_ignore_case(nr, role@))))
    &&& forall|i: int|
        0 <= i < cfg.attr_equals@.len() ==> match lookup(
            n.attributes,
            (#[trigger] cfg.attr_equals@[i]).0@,
        ) {
            Some(v) => lowercase(plain_text(v)) == cfg.attr_equals@[i].1@,
            None => false,
        }
}

/// The outcome for one node: kept with its filtered children, replaced by its filtered
/// children, or dropped.
pub enum OutcomeView {
    Include(NodeView),
    Promote(Seq<NodeView>),
    Exclude,
}

pub open spec fn with_children(n: NodeView, kids: Seq<NodeView>) -> NodeView {
    NodeView { name: n.name, role: n.role, attributes: n.attributes, children: kids }
}

pub open spec fn outcome(n: NodeView, cfg: FilterConfig, depth: int) -> OutcomeView
    decreases n, 1int,
{
    if cfg.max_depth matches Some(m) && depth > m {
        OutcomeView::Exclude
    } else {
        let kids = collect(n.children, cfg, depth + 1);
        if matches_spec(cfg, n) {
            OutcomeView::Include(with_children(n, kids))
        } else if kids.len() > 0 {
            if cfg.include_ancestors {
                OutcomeView::Include(with_children(n, kids))
            } else {
                OutcomeView::Promote(kids)
            }
        } else {
            OutcomeView::Exclude
        }
    }
}

/// The nodes that stand for one outcome in its parent's child list.
pub open spec fn pieces(o: OutcomeView) -> Seq<NodeView> {
    match o {
        OutcomeView::Include(x) => seq![x],
        OutcomeView::Promote(v) => v,
        OutcomeView::Exclude => Seq::empty(),
    }
}

/// The filtered list that replaces the sibling nodes `s`, all at `depth`.
pub open spec fn collect(s: Seq<NodeView>, cfg: FilterConfig, depth: int) -> Seq<NodeView>
    decreases s, 0int,
{
    if s.len() == 0 {
        Seq::empty()
    } else {
        collect(s.drop_last(), cfg, depth) + pieces(outcome(s.last(), cfg, depth))
    }
}

/// The tree that filtering `n` yields, if any.
pub open spec fn filtered(n: NodeView, cfg: FilterConfig) -> Option<NodeView> {
    match outcome(n, cfg, 0) {
        OutcomeView::Include(x) => Some(x),
        OutcomeView::Promote(kids) => if kids.len() == 0 {
            None
        } else {
            Some(with_children(n, kids))
        },
        OutcomeView::Exclude => None,
    }
}

enum FilterOutcome {
    Include(UiNode),
    Promote(Vec<UiNode>),
    Exclude,
}

spec fn outcome_view(o: FilterOutcome) -> OutcomeView {
    match o {
        FilterOutcome::Include(x) => OutcomeView::Include(x@),
        FilterOutcome::Promote(v) => OutcomeView::Promote(view_nodes(v@)),
        FilterOutcome::Exclude => OutcomeView::Exclude,
    }
}

proof fn lemma_view_nodes_append(a: Seq<UiNode>, b: Seq<UiNode>)
    ensures
        view_nodes(a + b) == view_nodes(a) + view_nodes(b),
    decreases b.len(),
{
    if b.len() == 0 {
        assert(a + b =~= a);
        assert(view_nodes(b) =~= Seq::<NodeView>::empty());
        assert(view_nodes(a) + view_nodes(b) =~= view_nodes(a));
    } else {
        lemma_view_nodes_append(a, b.drop_last());
        assert((a + b).drop_last() =~= a + b.drop_last());
        assert((a + b).last() == b.last());
        assert(view_nodes(a) + view_nodes(b) =~= (view_nodes(a) + view_nodes(b.drop_last())).push(
            view_node(b.last()),
        ));
    }
}

/// With no depth limit, the depth that filtering starts at does not matter.
proof fn lemma_outcome_depth_free(n: NodeView, cfg: FilterConfig, d1: int, d2: int)
    requires
        cfg.max_depth is None,
    ensures
        outcome(n, cfg, d1) == outcome(n, cfg, d2),
    decreases n, 1int,
{
    lemma_collect_depth_free(n.children, cfg, d1 + 1, d2 + 1);
}

proof fn lemma_collect_depth_free(s: Seq<NodeView>, cfg: FilterConfig, d1: int, d2: int)
    requires
        cfg.max_depth is None,
    ensures
        collect(s, cfg, d1) == collect(s, cfg, d2),
    decreases s, 0int,
{
    if s.len() > 0 {
        lemma_collect_depth_free(s.drop_last(), cfg, d1, d2);
        lemma_outcome_depth_free(s.last(), cfg, d1, d2);
    }
}

/// Below the depth limit every sibling is dropped.
proof fn lemma_collect_too_deep(s: Seq<NodeView>, cfg: FilterConfig, depth: int)
    requires
        cfg.max_depth matches Some(m) && depth > m,
    ensures
        collect(s, cfg, depth) == Seq::<NodeView>::empty(),
    decreases s.len(),
{
    if s.len() > 0 {
        lemma_collect_too_deep(s.drop_last(), cfg, depth);
        assert(pieces(outcome(s.last(), cfg, depth)) =~= Seq::<NodeView>::empty());
        assert(collect(s, cfg, depth) =~= Seq::<NodeView>::empty());
    }
}

proof fn lemma_collect_take(s: Seq<NodeView>, cfg: FilterConfig, depth: int, i: int)
    requires
        0 <= i < s.len(),
    ensures
        collect(s.take(i + 1), cfg, depth) == collect(s.take(i), cfg, depth) + pieces(
            outcome(s[i], cfg, depth),
        ),
{
    assert(s.take(i + 1).drop_last() =~= s.take(i));
    assert(s.take(i + 1).last() == s[i]);
}

impl FilterConfig {
    /// A configuration with the given criteria; each expected attribute value is
    /// lower-cased, keys stay as given.
    pub fn new(
        max_depth: Option<usize>,
        include_ancestors: bool,
        name_substring: Option<String>,
        role: Option<String>,
        attr_equals: Vec<(String, String)>,
    ) -> (r: Self)
        ensures
            r.max_depth == max_depth,
            r.include_ancestors == include_ancestors,
            r.name_substring == name_substring,
            r.role == role,
            r.attr_equals@.len() == attr_equals@.len(),
            forall|i: int|
                0 <= i < attr_equals@.len() ==> (#[trigger] r.attr_equals@[i]).0
                    == attr_equals@[i].0 && r.attr_equals@[i].1@ == lowercase(
                    attr_equals@[i].1@,
                ),
    {
        let mut lowered: Vec<(String, String)> = Vec::new();
        let mut i: usize = 0;
        while i < attr_equals.len()
            invariant
                i <= attr_equals.len(),
                lowered@.len() == i,
                forall|k: int|
                    0 <= k < i ==> (#[trigger] lowered@[k]).0 == attr_equals@[k].0
                        && lowered@[k].1@ == lowercase(attr_equals@[k].1@),
            decreases attr_equals.len() - i,
        {
            let k = attr_equals[i].0.clone();
            let v = to_lowercase(attr_equals[i].1.as_str());
            lowered.push((k, v));
            i = i + 1;
        }
        FilterConfig { max_depth, include_ancestors, name_substring, role, attr_equals: lowered }
    }

    /// Whether the node itself satisfies every criterion.
    fn matches(&self, node: &UiNode) -> (r: bool)
        ensures
            r == matches_spec(*self, node@),
    {
        if let Some(name) = &self.name_substring {
            let lower = to_lowercase(node.name.as_str());
            if !contains_str(lower.as_str(), name.as_str()) {
                return false;
            }
        }
        if let Some(role) = &self.role {
            match &node.role {
                Some(node_role) => {
                    let lower = to_lowercase(node_role.as_str());
                    if str_eq(lower.as_str(), role.as_str()) {
                    } else if eq_ignore_ascii_case(node_role.as_str(), role.as_str()) {
                    } else {
                        return false;
                    }
                },
                None => {
                    return false;
                },
            }
        }
        let mut i: usize = 0;
        while i < self.attr_equals.len()
            invariant
                i <= self.attr_equals.len(),
                (self.name_substring matches Some(name) ==> contains(
                    lowercase(node@.name),
                    name@,
                )),
                (self.role matches Some(role) ==> (node@.role matches Some(nr) && (lowercase(nr)
                    == role@ || eq_ignore_case(nr, role@)))),
                forall|k: int|
                    0 <= k < i ==> match lookup(
                        node@.attributes,
                        (#[trigger] self.attr_equals@[k]).0@,
                    ) {
                        Some(v) => lowercase(plain_text(v)) == self.attr_equals@[k].1@,
                        None => false,
                    },
            decreases self.attr_equals.len() - i,
        {
            let key = &self.attr_equals[i].0;
            let expected = &self.attr_equals[i].1;
            match node.attribute_value(key.as_str()) {
                None => {
                    return false;
                },
                Some(value) => {
                    let rendered = json_value_to_string(value);
                    let actual = to_lowercase(rendered.as_str());
                    if !str_eq(actual.as_str(), expected.as_str()) {
                        return false;
                    }
                },
            }
            i = i + 1;
        }
        true
    }
}

fn filter_internal(node: &UiNode, config: &FilterConfig, depth: usize) -> (r: FilterOutcome)
    requires
        config.max_depth matches Some(m) ==> depth <= m,
    ensures
        outcome_view(r) == outcome(node@, *config, depth as int),
    decreases node,
{
    if let Some(max_depth) = config.max_depth {
        if depth > max_depth {
            return FilterOutcome::Exclude;
        }
    }
    let ghost kids_spec = node@.children;
    proof {
        lemma_view_nodes(node.children@);
    }
    let descend = match config.max_depth {
        Some(m) => depth < m,
        None => true,
    };
    let mut filtered_children: Vec<UiNode> = Vec::new();
    if descend {
        let next = if depth < usize::MAX {
            depth + 1
        } else {
            depth
        };
        let mut i: usize = 0;
        while i < node.children.len()
            invariant
                i <= node.children.len(),
                config.max_depth matches Some(m) ==> next <= m && next == depth + 1,
                config.max_depth is None ==> (next == depth + 1 || next == depth),
                kids_spec == view_nodes(node.children@),
                kids_spec.len() == node.children@.len(),
                forall|k: int|
                    0 <= k < node.children@.len() ==> #[trigger] kids_spec[k] == view_node(
                        node.children@[k],
                    ),
                view_nodes(filtered_children@) == collect(
                    kids_spec.take(i as int),
                    *config,
                    depth + 1,
                ),
            decreases node.children.len() - i,
        {
            proof {
                assert(decreases_to!(node.children => node.children[i as int]));
            }
            let child_outcome = filter_internal(&node.children[i], config, next);
            proof {
                if config.max_depth is None {
                    lemma_outcome_depth_free(kids_spec[i as int], *config, next as int, depth + 1);
                }
                lemma_collect_take(kids_spec, *config, depth + 1, i as int);
            }
            match child_outcome {
                FilterOutcome::Include(child_node) => {
                    let ghost prev = filtered_children@;
                    filtered_children.push(child_node);
                    proof {
                        lemma_view_nodes_push(prev, child_node);
                        assert(pieces(outcome(kids_spec[i as int], *config, depth + 1)) =~= seq![
                            child_node@,
                        ]);
                    }
                },
                FilterOutcome::Promote(mut promoted) => {
                    let ghost prev = filtered_children@;
                    let ghost pv = promoted@;
                    filtered_children.append(&mut promoted);
                    proof {
                        lemma_view_nodes_append(prev, pv);
                    }
                },
                FilterOutcome::Exclude => {
                    assert(pieces(outcome(kids_spec[i as int], *config, depth + 1)) =~= Seq::<
                        NodeView,
                    >::empty());
                    assert(view_nodes(filtered_children@) =~= collect(
                        kids_spec.take(i as int),
                        *config,
                        depth + 1,
                    ) + Seq::<NodeView>::empty());
                },
            }
            i = i + 1;
        }
        assert(kids_spec.take(node.children.len() as int) =~= kids_spec);
    } else {
        proof {
            lemma_collect_too_deep(kids_spec, *config, depth + 1);
        }
    }
    let matches_self = config.matches(node);
    if matches_self || (filtered_children.len() > 0 && config.include_ancestors) {
        let kept = UiNode {
            name: node.name.clone(),
            role: clone_opt_string(&node.role),
            attributes: clone_attributes(&node.attributes),
            children: filtered_children,
        };
        FilterOutcome::Include(kept)
    } else if filtered_children.len() > 0 {
        FilterOutcome::Promote(filtered_children)
    } else {
        FilterOutcome::Exclude
    }
}

/// Filters the tree below `node` by `config`. `None` when nothing is left.
pub fn filter_tree(node: &UiNode, config: &FilterConfig) -> (r: Option<UiNode>)
    ensures
        match r {
            Some(x) => filtered(node@, *config) == Some(x@),
            None => filtered(node@, *config) is None,
        },
{
    match filter_internal(node, config, 0) {
        FilterOutcome::Include(n) => Some(n),
        FilterOutcome::Promote(children) => {
            if children.len() == 0 {
                None
            } else {
                Some(
                    UiNode {
                        name: node.name.clone(),
                        role: clone_opt_string(&node.role),
                        attributes: clone_attributes(&node.attributes),
                        children,
                    },
                )
            }
        },
        FilterOutcome::Exclude => None,
    }
}

// ---------------------------------------------------------------------------
// Laws
// ---------------------------------------------------------------------------

/// Every leaf of `n` satisfies the criteria of `cfg`.
pub open spec fn leaves_match(n: NodeView, cfg: FilterConfig) -> bool
    decreases n,
{
    &&& (n.children.len() == 0 ==> matches_spec(cfg, n))
    &&& forall|i: int|
        0 <= i < n.children.len() ==> #[trigger] leaves_match_at(n.children, i, cfg)
}

pub open spec fn leaves_match_at(s: Seq<NodeView>, i: int, cfg: FilterConfig) -> bool
    decreases s, 0int,
{
    if 0 <= i < s.len() {
        leaves_match(s[i], cfg)
    } else {
        true
    }
}

/// A configuration with no criterion at all.
pub open spec fn no_criteria(cfg: FilterConfig) -> bool {
    &&& cfg.max_depth is None
    &&& cfg.name_substring is None
    &&& cfg.role is None
    &&& cfg.attr_equals@.len() == 0
}

proof fn lemma_identity_outcome(n: NodeView, cfg: FilterConfig, d: int)
    requires
        no_criteria(cfg),
    ensures
        outcome(n, cfg, d) == OutcomeView::Include(n),
    decreases n, 1int,
{
    lemma_identity_collect(n.children, cfg, d + 1);
}

proof fn lemma_identity_collect(s: Seq<NodeView>, cfg: FilterConfig, d: int)
    requires
        no_criteria(cfg),
    ensures
        collect(s, cfg, d) == s,
    decreases s, 0int,
{
    if s.len() == 0 {
        assert(collect(s, cfg, d) =~= s);
    } else {
        lemma_identity_collect(s.drop_last(), cfg, d);
        lemma_identity_outcome(s.last(), cfg, d);
        assert(collect(s, cfg, d) =~= s.drop_last().push(s.last()));
        assert(s.drop_last().push(s.last()) =~= s);
    }
}

/// Filtering with no criterion gives the whole tree back unchanged.
pub proof fn law_filter_without_criteria_is_identity(n: NodeView, cfg: FilterConfig)
    requires
        no_criteria(cfg),
    ensures
        filtered(n, cfg) == Some(n),
{
    lemma_identity_outcome(n, cfg, 0);
}

proof fn lemma_max_height_bound(s: Seq<NodeView>, k: int)
    requires
        forall|i: int| 0 <= i < s.len() ==> height(#[trigger] s[i]) <= k,
        k >= 0,
    ensures
        max_height(s) <= k,
    decreases s.len(),
{
    if s.len() > 0 {
        assert forall|i: int| 0 <= i < s.drop_last().len() implies height(
            #[trigger] s.drop_last()[i],
        ) <= k by {
            assert(s.drop_last()[i] == s[i]);
        }
        lemma_max_height_bound(s.drop_last(), k);
        assert(height(s[s.len() - 1]) <= k);
    }
}

proof fn lemma_depth_outcome(n: NodeView, cfg: FilterConfig, d: int)
    requires
        cfg.max_depth is Some,
        d >= 0,
    ensures
        match outcome(n, cfg, d) {
            OutcomeView::Include(x) => height(x) + d <= cfg.max_depth->0,
            OutcomeView::Promote(v) => forall|i: int|
                0 <= i < v.len() ==> height(#[trigger] v[i]) + d + 1 <= cfg.max_depth->0,
            OutcomeView::Exclude => true,
        },
    decreases n, 1int,
{
    let m = cfg.max_depth->0;
    if d <= m {
        let kids = collect(n.children, cfg, d + 1);
        lemma_depth_collect(n.children, cfg, d + 1);
        if kids.len() > 0 {
            assert(height(kids[0]) + d + 1 <= m);
            lemma_max_height_bound(kids, m - d - 1);
        }
    }
}

proof fn lemma_depth_collect(s: Seq<NodeView>, cfg: FilterConfig, d: int)
    requires
        cfg.max_depth is Some,
        d >= 0,
    ensures
        forall|i: int|
            0 <= i < collect(s, cfg, d).len() ==> height(#[trigger] collect(s, cfg, d)[i]) + d
                <= cfg.max_depth->0,
    decreases s, 0int,
{
    if s.len() > 0 {
        lemma_depth_collect(s.drop_last(), cfg, d);
        lemma_depth_outcome(s.last(), cfg, d);
        let a = collect(s.drop_last(), cfg, d);
        let b = pieces(outcome(s.last(), cfg, d));
        assert forall|i: int| 0 <= i < (a + b).len() implies height(#[trigger] (a + b)[i]) + d
            <= cfg.max_depth->0 by {
            if i < a.len() {
                assert((a + b)[i] == a[i]);
            } else {
                assert((a + b)[i] == b[i - a.len()]);
            }
        }
    }
}

/// With a depth limit, the filtered tree is no higher than the limit: no node deeper
/// than `max_depth` is kept.
pub proof fn law_filter_respects_depth_limit(n: NodeView, cfg: FilterConfig)
    requires
        cfg.max_depth is Some,
        filtered(n, cfg) is Some,
    ensures
        height(filtered(n, cfg)->0) <= cfg.max_depth->0,
{
    lemma_depth_outcome(n, cfg, 0);
    match outcome(n, cfg, 0) {
        OutcomeView::Promote(kids) => {
            let m = cfg.max_depth->0;
            assert(height(kids[0]) + 1 <= m);
            lemma_max_height_bound(kids, m - 1);
        },
        _ => {},
    }
}

proof fn lemma_leaves_outcome(n: NodeView, cfg: FilterConfig, d: int)
    ensures
        match outcome(n, cfg, d) {
            OutcomeView::Include(x) => leaves_match(x, cfg),
            OutcomeView::Promote(v) => v.len() > 0 && forall|i: int|
                0 <= i < v.len() ==> leaves_match(#[trigger] v[i], cfg),
            OutcomeView::Exclude => true,
        },
    decreases n, 1int,
{
    lemma_leaves_collect(n.children, cfg, d + 1);
    let kids = collect(n.children, cfg, d + 1);
    assert forall|i: int| 0 <= i < kids.len() implies #[trigger] leaves_match_at(
        kids,
        i,
        cfg,
    ) by {
        assert(leaves_match(kids[i], cfg));
    }
}

proof fn lemma_leaves_collect(s: Seq<NodeView>, cfg: FilterConfig, d: int)
    ensures
        forall|i: int|
            0 <= i < collect(s, cfg, d).len() ==> leaves_match(
                #[trigger] collect(s, cfg, d)[i],
                cfg,
            ),
    decreases s, 0int,
{
    if s.len() > 0 {
        lemma_leaves_collect(s.drop_last(), cfg, d);
        lemma_leaves_outcome(s.last(), cfg, d);
        let a = collect(s.drop_last(), cfg, d);
        let b = pieces(outcome(s.last(), cfg, d));
        assert forall|i: int| 0 <= i < (a + b).len() implies leaves_match(
            #[trigger] (a + b)[i],
            cfg,
        ) by {
            if i < a.len() {
                assert((a + b)[i] == a[i]);
            } else {
                assert((a + b)[i] == b[i - a.len()]);
            }
        }
    }
}

/// Branches without a match are pruned: every leaf of the filtered tree satisfies the
/// criteria.
pub proof fn law_filter_leaves_match(n: NodeView, cfg: FilterConfig)
    requires
        filtered(n, cfg) is Some,
    ensures
        leaves_match(filtered(n, cfg)->0, cfg),
{
    lemma_leaves_outcome(n, cfg, 0);
    match outcome(n, cfg, 0) {
        OutcomeView::Promote(kids) => {
            let r = with_children(n, kids);
            assert forall|i: int| 0 <= i < r.children.len() implies #[trigger] leaves_match_at(
                r.children,
                i,
                cfg,
            ) by {
                assert(leaves_match(kids[i], cfg));
            }
        },
        _ => {},
    }
}

/// The filtered tree keeps the root node itself (its name, role and attributes), and a
/// root that matches is always kept.
pub proof fn law_filter_keeps_root(n: NodeView, cfg: FilterConfig)
    ensures
        filtered(n, cfg) matches Some(r) ==> r.name == n.name && r.role == n.role
            && r.attributes == n.attributes,
        matches_spec(cfg, n) ==> filtered(n, cfg) is Some,
{
}

/// `n` and every node below it satisfy the criteria of `cfg`.
pub open spec fn all_match(n: NodeView, cfg: FilterConfig) -> bool
    decreases n, 1int,
{
    &&& matches_spec(cfg, n)
    &&& forall|i: int| 0 <= i < n.children.len() ==> #[trigger] all_match_at(n.children, i, cfg)
}

pub open spec fn all_match_at(s: Seq<NodeView>, i: int, cfg: FilterConfig) -> bool
    decreases s, 0int,
{
    if 0 <= i < s.len() {
        all_match(s[i], cfg)
    } else {
        true
    }
}

proof fn lemma_lifted_outcome(n: NodeView, cfg: FilterConfig, d: int)
    requires
        !cfg.include_ancestors,
    ensures
        match outcome(n, cfg, d) {
            OutcomeView::Include(x) => all_match(x, cfg) && forall|i: int|
                0 <= i < x.children.len() ==> #[trigger] all_match_at(x.children, i, cfg),
            OutcomeView::Promote(v) => forall|i: int|
                0 <= i < v.len() ==> all_match(#[trigger] v[i], cfg),
            OutcomeView::Exclude => true,
        },
    decreases n, 1int,
{
    lemma_lifted_collect(n.children, cfg, d + 1);
    let kids = collect(n.children, cfg, d + 1);
    assert forall|i: int| 0 <= i < kids.len() implies #[trigger] all_match_at(kids, i, cfg) by {
        assert(all_match(kids[i], cfg));
    }
}

proof fn lemma_lifted_collect(s: Seq<NodeView>, cfg: FilterConfig, d: int)
    requires
        !cfg.include_ancestors,
    ensures
        forall|i: int|
            0 <= i < collect(s, cfg, d).len() ==> all_match(#[trigger] collect(s, cfg, d)[i], cfg),
    decreases s, 0int,
{
    if s.len() > 0 {
        lemma_lifted_collect(s.drop_last(), cfg, d);
        lemma_lifted_outcome(s.last(), cfg, d);
        let a = collect(s.drop_last(), cfg, d);
        let b = pieces(outcome(s.last(), cfg, d));
        assert forall|i: int| 0 <= i < (a + b).len() implies all_match(
            #[trigger] (a + b)[i],
            cfg,
        ) by {
            if i < a.len() {
                assert((a + b)[i] == a[i]);
            } else {
                assert((a + b)[i] == b[i - a.len()]);
            }
        }
    }
}

/// Without ancestors, non-matching nodes below the root are lifted out: every node
/// below the root of the filtered tree satisfies the criteria.
pub proof fn law_filter_without_ancestors_keeps_only_matches(n: NodeView, cfg: FilterConfig)
    requires
        !cfg.include_ancestors,
        filtered(n, cfg) is Some,
    ensures
        forall|i: int|
            0 <= i < filtered(n, cfg)->0.children.len() ==> #[trigger] all_match_at(
                filtered(n, cfg)->0.children,
                i,
                cfg,
            ),
{
    lemma_lifted_outcome(n, cfg, 0);
    match outcome(n, cfg, 0) {
        OutcomeView::Promote(kids) => {
            let r = with_children(n, kids);
            assert forall|i: int| 0 <= i < r.children.len() implies #[trigger] all_match_at(
                r.children,
                i,
                cfg,
            ) by {
                assert(all_match(kids[i], cfg));
            }
        },
        _ => {},
    }
}

/// Some node of the tree at `n`, taken at `depth` for `n` and one more per level
/// below, satisfies the criteria within the depth limit.
pub open spec fn has_hit(n: NodeView, cfg: FilterConfig, depth: int) -> bool
    decreases n, 1int,
{
    &&& !(cfg.max_depth matches Some(m) && depth > m)
    &&& (matches_spec(cfg, n) || any_hit(n.children, cfg, depth + 1))
}

/// Some tree among sibling trees at `depth` has a hit.
pub open spec fn any_hit(s: Seq<NodeView>, cfg: FilterConfig, depth: int) -> bool
    decreases s, 0int,
{
    s.len() > 0 && (any_hit(s.drop_last(), cfg, depth) || has_hit(s.last(), cfg, depth))
}

proof fn lemma_outcome_iff(n: NodeView, cfg: FilterConfig, d: int)
    ensures
        (pieces(outcome(n, cfg, d)).len() > 0) == has_hit(n, cfg, d),
    decreases n, 1int,
{
    lemma_collect_iff(n.children, cfg, d + 1);
}

proof fn lemma_collect_iff(s: Seq<NodeView>, cfg: FilterConfig, d: int)
    ensures
        (collect(s, cfg, d).len() > 0) == any_hit(s, cfg, d),
    decreases s, 0int,
{
    if s.len() > 0 {
        lemma_collect_iff(s.drop_last(), cfg, d);
        lemma_outcome_iff(s.last(), cfg, d);
    }
}

/// Filtering keeps every hit: a tree is kept exactly when some node of it (within the
/// depth limit) satisfies the criteria, whether ancestors are kept or lifted out.
pub proof fn law_filter_keeps_every_hit(n: NodeView, cfg: FilterConfig)
    ensures
        (filtered(n, cfg) is Some) == has_hit(n, cfg, 0),
{
    lemma_outcome_iff(n, cfg, 0);
}

/// A tree that filtering at `depth` keeps as it is: within the depth limit, each node
/// matching or (when ancestors are kept) having children.
pub open spec fn settled(x: NodeView, cfg: FilterConfig, depth: int) -> bool
    decreases x, 1int,
{
    &&& !(cfg.max_depth matches Some(m) && depth > m)
    &&& (matches_spec(cfg, x) || (cfg.include_ancestors && x.children.len() > 0))
    &&& all_settled(x.children, cfg, depth + 1)
}

pub open spec fn all_settled(s: Seq<NodeView>, cfg: FilterConfig, depth: int) -> bool
    decreases s, 0int,
{
    s.len() == 0 || (all_settled(s.drop_last(), cfg, depth) && settled(s.last(), cfg, depth))
}

proof fn lemma_settled_shallower(x: NodeView, cfg: FilterConfig, d: int, d2: int)
    requires
        settled(x, cfg, d),
        d2 <= d,
    ensures
        settled(x, cfg, d2),
    decreases x, 1int,
{
    lemma_all_settled_shallower(x.children, cfg, d + 1, d2 + 1);
}

proof fn lemma_all_settled_shallower(s: Seq<NodeView>, cfg: FilterConfig, d: int, d2: int)
    requires
        all_settled(s, cfg, d),
        d2 <= d,
    ensures
        all_settled(s, cfg, d2),
    decreases s, 0int,
{
    if s.len() > 0 {
        lemma_all_settled_shallower(s.drop_last(), cfg, d, d2);
        lemma_settled_shallower(s.last(), cfg, d, d2);
    }
}

proof fn lemma_all_settled_concat(a: Seq<NodeView>, b: Seq<NodeView>, cfg: FilterConfig, d: int)
    requires
        all_settled(a, cfg, d),
        all_settled(b, cfg, d),
    ensures
        all_settled(a + b, cfg, d),
    decreases b.len(),
{
    if b.len() == 0 {
        assert(a + b == a);
    } else {
        lemma_all_settled_concat(a, b.drop_last(), cfg, d);
        assert((a + b).drop_last() == a + b.drop_last());
        assert((a + b).last() == b.last());
    }
}

proof fn lemma_outcome_settled(n: NodeView, cfg: FilterConfig, d: int)
    ensures
        match outcome(n, cfg, d) {
            OutcomeView::Include(x) => settled(x, cfg, d),
            OutcomeView::Promote(v) => all_settled(v, cfg, d + 1),
            OutcomeView::Exclude => true,
        },
    decreases n, 1int,
{
    lemma_collect_settled(n.children, cfg, d + 1);
}

proof fn lemma_collect_settled(s: Seq<NodeView>, cfg: FilterConfig, d: int)
    ensures
        all_settled(collect(s, cfg, d), cfg, d),
    decreases s, 0int,
{
    if s.len() > 0 {
        lemma_collect_settled(s.drop_last(), cfg, d);
        lemma_outcome_settled(s.last(), cfg, d);
        let b = pieces(outcome(s.last(), cfg, d));
        match outcome(s.last(), cfg, d) {
            OutcomeView::Include(x) => {
                assert(b.drop_last().len() == 0);
                assert(all_settled(b.drop_last(), cfg, d));
                assert(b.last() == x);
                assert(all_settled(b, cfg, d));
            },
            OutcomeView::Promote(v) => {
                lemma_all_settled_shallower(v, cfg, d + 1, d);
            },
            OutcomeView::Exclude => {
                assert(b.len() == 0);
                assert(all_settled(b, cfg, d));
            },
        }
        lemma_all_settled_concat(collect(s.drop_last(), cfg, d), b, cfg, d);
    }
}

proof fn lemma_settled_kept(x: NodeView, cfg: FilterConfig, d: int)
    requires
        settled(x, cfg, d),
    ensures
        outcome(x, cfg, d) == OutcomeView::Include(x),
    decreases x, 1int,
{
    lemma_settled_collect(x.children, cfg, d + 1);
    assert(with_children(x, x.children) == x);
}

proof fn lemma_settled_collect(s: Seq<NodeView>, cfg: FilterConfig, d: int)
    requires
        all_settled(s, cfg, d),
    ensures
        collect(s, cfg, d) == s,
    decreases s, 0int,
{
    if s.len() == 0 {
        assert(collect(s, cfg, d) =~= s);
    } else {
        lemma_settled_collect(s.drop_last(), cfg, d);
        lemma_settled_kept(s.last(), cfg, d);
        assert(s.drop_last() + seq![s.last()] =~= s);
    }
}

/// Filtering is idempotent: filtering an already filtered tree again, with the same
/// configuration, gives it back unchanged.
pub proof fn law_filter_is_idempotent(n: NodeView, cfg: FilterConfig)
    requires
        filtered(n, cfg) is Some,
    ensures
        filtered(filtered(n, cfg)->0, cfg) == filtered(n, cfg),
{
    lemma_outcome_settled(n, cfg, 0);
    match outcome(n, cfg, 0) {
        OutcomeView::Include(x) => {
            lemma_settled_kept(x, cfg, 0);
        },
        OutcomeView::Promote(kids) => {
            let r = with_children(n, kids);
            lemma_settled_collect(kids, cfg, 1);
            assert(matches_spec(cfg, r) == matches_spec(cfg, n));
            assert(with_children(r, kids) == r);
        },
        OutcomeView::Exclude => {},
    }
}

/// A node satisfies the filter only if it meets every criterion: its lower-cased
/// name contains the name filter, its role equals the role filter, and for every
/// attribute filter, at any index, the node has that attribute and its lower-cased
/// rendering equals the filter's value.
pub proof fn law_match_meets_every_criterion(cfg: FilterConfig, n: NodeView, i: int)
    requires
        matches_spec(cfg, n),
        0 <= i < cfg.attr_equals@.len(),
    ensures
        lookup(n.attributes, cfg.attr_equals@[i].0@) is Some,
        lowercase(plain_text(lookup(n.attributes, cfg.attr_equals@[i].0@)->0))
            == cfg.attr_equals@[i].1@,
        cfg.name_substring matches Some(name) ==> contains(lowercase(n.name), name@),
        cfg.role matches Some(role) ==> n.role is Some,
{
}

/// A filter with an attribute requirement that a tree's nodes never meet keeps nothing
/// of that tree.
pub proof fn law_unmet_attribute_keeps_nothing(n: NodeView, cfg: FilterConfig, i: int)
    requires
        0 <= i < cfg.attr_equals@.len(),
        forall_nodes_lack(n, cfg.attr_equals@[i].0@, cfg.attr_equals@[i].1@),
    ensures
        filtered(n, cfg) is None,
{
    lemma_lacking_no_hit(n, cfg, i, 0);
    law_filter_keeps_every_hit(n, cfg);
}

/// No node of the tree has the attribute `key` with lower-cased rendering `value`.
pub open spec fn forall_nodes_lack(n: NodeView, key: Seq<char>, value: Seq<char>) -> bool
    decreases n, 1int,
{
    &&& !(lookup(n.attributes, key) matches Some(v) && lowercase(plain_text(v)) == value)
    &&& all_lack(n.children, key, value)
}

pub open spec fn all_lack(s: Seq<NodeView>, key: Seq<char>, value: Seq<char>) -> bool
    decreases s, 0int,
{
    s.len() == 0 || (all_lack(s.drop_last(), key, value) && forall_nodes_lack(s.last(), key, value))
}

proof fn lemma_lacking_no_hit(n: NodeView, cfg: FilterConfig, i: int, d: int)
    requires
        0 <= i < cfg.attr_equals@.len(),
        forall_nodes_lack(n, cfg.attr_equals@[i].0@, cfg.attr_equals@[i].1@),
    ensures
        !has_hit(n, cfg, d),
    decreases n, 1int,
{
    if matches_spec(cfg, n) {
        law_match_meets_every_criterion(cfg, n, i);
    }
    lemma_lacking_no_hit_all(n.children, cfg, i, d + 1);
}

proof fn lemma_lacking_no_hit_all(s: Seq<NodeView>, cfg: FilterConfig, i: int, d: int)
    requires
        0 <= i < cfg.attr_equals@.len(),
        all_lack(s, cfg.attr_equals@[i].0@, cfg.attr_equals@[i].1@),
    ensures
        !any_hit(s, cfg, d),
    decreases s, 0int,
{
    if s.len() > 0 {
        lemma_lacking_no_hit_all(s.drop_last(), cfg, i, d);
        lemma_lacking_no_hit(s.last(), cfg, i, d);
    }
}

} // verus!
