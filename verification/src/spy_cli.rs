//! The snapshot spy: UI trees with ids and JSON properties, filtered by role, a name
//! pattern, properties and depth, and printed as an indented text tree.
use vstd::prelude::*;

use crate::keyed::{insert_sorted, keys_sorted, lookup, pairs_view};
use crate::model::{json_text, write_json, JsonValue, JsonView};
use crate::output::{connector, indent};
use crate::pattern::{regex_is_match, regex_new_result, NamePattern};
use crate::text::{
    chars_of, lowercase, push_char, push_str, split_once, split_once_chars, str_eq, string_of,
    to_lowercase, trim, trim_chars, trim_end, trim_end_str, trim_start, trim_start_str, trim_str,
};

verus! {

/// Why a snapshot could not be used.
#[derive(Debug)]
pub enum SpyError {
    /// The JSON payload did not parse; the parser's message.
    ParseError(String),
    /// The name pattern is not a valid regular expression; the compiler's message.
    InvalidPattern(String),
}

impl SpyError {
    /// The error message.
    pub fn message(&self) -> (r: String)
        ensures
            r@ == match self {
                SpyError::ParseError(m) => "failed to parse ui tree: "@ + m@,
                SpyError::InvalidPattern(m) => "invalid name pattern: "@ + m@,
            },
    {
        let mut out = String::new();
        match self {
            SpyError::ParseError(m) => {
                push_str(&mut out, "failed to parse ui tree: ");
                push_str(&mut out, m.as_str());
            },
            SpyError::InvalidPattern(m) => {
                push_str(&mut out, "invalid name pattern: ");
                push_str(&mut out, m.as_str());
            },
        }
        out
    }
}

/// A node of a snapshot. `properties` holds its entries in ascending key order with no
/// key twice.
#[derive(Debug)]
pub struct UiNode {
    pub id: String,
    pub role: String,
    pub name: Option<String>,
    pub properties: Vec<(String, JsonValue)>,
    pub children: Vec<UiNode>,
}

pub struct SpyNodeView {
    pub id: Seq<char>,
    pub role: Seq<char>,
    pub name: Option<Seq<char>>,
    pub properties: Seq<(Seq<char>, JsonView)>,
    pub children: Seq<SpyNodeView>,
}

pub open spec fn spy_view(n: UiNode) -> SpyNodeView
    decreases n, 1int,
{
    SpyNodeView {
        id: n.id@,
        role: n.role@,
        name: match n.name {
            Some(s) => Some(s@),
            None => None,
        },
        properties: pairs_view(n.properties@),
        children: spy_views(n.children@),
    }
}

pub open spec fn spy_views(s: Seq<UiNode>) -> Seq<SpyNodeView>
    decreases s, 0int,
{
    if s.len() == 0 {
        Seq::empty()
    } else {
        spy_views(s.drop_last()).push(spy_view(s.last()))
    }
}

impl View for UiNode {
    type V = SpyNodeView;

    open spec fn view(&self) -> SpyNodeView {
        spy_view(*self)
    }
}

pub proof fn lemma_spy_views(s: Seq<UiNode>)
    ensures
        spy_views(s).len() == s.len(),
        forall|i: int| 0 <= i < s.len() ==> #[trigger] spy_views(s)[i] == spy_view(s[i]),
    decreases s.len(),
{
    if s.len() > 0 {
        lemma_spy_views(s.drop_last());
    }
}

proof fn lemma_spy_views_push(s: Seq<UiNode>, n: UiNode)
    ensures
        spy_views(s.push(n)) == spy_views(s).push(spy_view(n)),
{
    assert(s.push(n).drop_last() == s);
}

impl UiNode {
    /// Stores a property, replacing an earlier value, keeping keys ascending.
    pub fn insert_property(&mut self, key: String, value: JsonValue)
        requires
            keys_sorted(old(self)@.properties),
        ensures
            keys_sorted(final(self)@.properties),
            final(self)@.id == old(self)@.id,
            final(self)@.role == old(self)@.role,
            final(self)@.name == old(self)@.name,
            final(self)@.children == old(self)@.children,
            forall|k: Seq<char>|
                #[trigger] lookup(final(self)@.properties, k) == if k == key@ {
                    Some(value@)
                } else {
                    lookup(old(self)@.properties, k)
                },
    {
        insert_sorted(&mut self.properties, key, value);
    }
}

/// What a node is filtered by.
pub struct FilterCriteria {
    /// The node's role must equal one of these (if any are given).
    pub roles: Vec<String>,
    /// Regular expression that the name (or "" without one) must match.
    pub name_pattern: Option<String>,
    /// The compiled pattern that matching uses.
    pub compiled_name_pattern: Option<NamePattern>,
    /// Properties the node must have, with these values; keys ascending.
    pub properties: Vec<(String, String)>,
    /// Nodes deeper than this (roots have depth 0) are dropped.
    pub max_depth: Option<usize>,
    pub include_properties: bool,
    pub ignore_role_case: bool,
    pub ignore_name_case: bool,
}

impl FilterCriteria {
    /// Criteria that keep everything.
    pub fn new() -> (r: Self)
        ensures
            r.roles@.len() == 0,
            r.name_pattern is None,
            r.compiled_name_pattern is None,
            r.properties@.len() == 0,
            r.max_depth is None,
            !r.include_properties,
            !r.ignore_role_case,
            !r.ignore_name_case,
    {
        FilterCriteria {
            roles: Vec::new(),
            name_pattern: None,
            compiled_name_pattern: None,
            properties: Vec::new(),
            max_depth: None,
            include_properties: false,
            ignore_role_case: false,
            ignore_name_case: false,
        }
    }

    /// Requires the property `key` to have `value`, replacing an earlier requirement on
    /// the same key.
    pub fn insert_property(&mut self, key: String, value: String)
        requires
            keys_sorted(pairs_view(old(self).properties@)),
        ensures
            keys_sorted(pairs_view(final(self).properties@)),
            final(self).roles == old(self).roles,
            final(self).name_pattern == old(self).name_pattern,
            final(self).max_depth == old(self).max_depth,
            final(self).ignore_role_case == old(self).ignore_role_case,
            final(self).ignore_name_case == old(self).ignore_name_case,
            final(self).include_properties == old(self).include_properties,
            forall|k: Seq<char>|
                #[trigger] lookup(pairs_view(final(self).properties@), k) == if k == key@ {
                    Some(value@)
                } else {
                    lookup(pairs_view(old(self).properties@), k)
                },
    {
        insert_sorted(&mut self.properties, key, value);
    }
}

// ---------------------------------------------------------------------------
// Specification
// ---------------------------------------------------------------------------

/// The criteria as matching uses them, once compiled.
pub struct Criteria {
    pub roles: Seq<Seq<char>>,
    pub pattern: Option<Seq<char>>,
    pub properties: Seq<(Seq<char>, Seq<char>)>,
    pub max_depth: Option<usize>,
    pub ignore_role_case: bool,
}

/// The pattern source that compiling gives: the name pattern, prefixed with `(?i)`
/// when the name case is ignored.
pub open spec fn pattern_source(c: FilterCriteria) -> Option<Seq<char>> {
    match c.name_pattern {
        Some(p) => Some(if c.ignore_name_case {
            "(?i)"@ + p@
        } else {
            p@
        }),
        None => None,
    }
}

/// The criteria after compiling: roles lower-cased when their case is ignored, the
/// compiled name pattern, or the one already held when there is no name pattern.
pub open spec fn effective(c: FilterCriteria) -> Criteria {
    Criteria {
        roles: if c.ignore_role_case {
            c.roles@.map_values(|r: String| lowercase(r@))
        } else {
            c.roles@.map_values(|r: String| r@)
        },
        pattern: match pattern_source(c) {
            Some(s) => Some(s),
            None => match c.compiled_name_pattern {
                Some(p) => Some(p.source_view()),
                None => None,
            },
        },
        properties: pairs_view(c.properties@),
        max_depth: c.max_depth,
        ignore_role_case: c.ignore_role_case,
    }
}

/// Compiling fails exactly when the name pattern does not compile.
pub open spec fn pattern_error(c: FilterCriteria) -> Option<Seq<char>> {
    match pattern_source(c) {
        Some(s) => match regex_new_result(s) {
            Ok(_) => None,
            Err(e) => Some(e),
        },
        None => None,
    }
}

/// A property value satisfies an expected text: a string by its content, any other
/// value by its JSON text.
pub open spec fn property_ok(v: JsonView, expected: Seq<char>) -> bool {
    match v {
        JsonView::Text(s) => s == expected,
        _ => json_text(v) == expected,
    }
}

pub open spec fn role_ok(role: Seq<char>, wanted: Seq<char>, ignore_case: bool) -> bool {
    if ignore_case {
        lowercase(role) == wanted
    } else {
        role == wanted
    }
}

/// The node itself satisfies the criteria at `depth`.
pub open spec fn spy_matches(n: SpyNodeView, c: Criteria, depth: int) -> bool {
    &&& (c.max_depth matches Some(m) ==> depth <= m)
    &&& (c.roles.len() > 0 ==> exists|i: int|
        0 <= i < c.roles.len() && role_ok(n.role, #[trigger] c.roles[i], c.ignore_role_case))
    &&& (c.pattern matches Some(p) ==> regex_is_match(
        p,
        match n.name {
            Some(nm) => nm,
            None => Seq::empty(),
        },
    ))
    &&& forall|i: int|
        0 <= i < c.properties.len() ==> match lookup(
            n.properties,
            (#[trigger] c.properties[i]).0,
        ) {
            Some(v) => property_ok(v, c.properties[i].1),
            None => false,
        }
}

/// A role equal (under the role-case setting) to any one of the listed roles, at any
/// index, satisfies the role criterion: the node then matches exactly as it would with
/// no role criterion at all.
pub proof fn law_spy_any_listed_role_suffices(n: SpyNodeView, c: Criteria, depth: int, i: int)
    requires
        0 <= i < c.roles.len(),
        role_ok(n.role, c.roles[i], c.ignore_role_case),
    ensures
        spy_matches(n, c, depth) == spy_matches(n, Criteria { roles: Seq::empty(), ..c }, depth),
{
}

/// A node whose role equals none of the listed roles does not match.
pub proof fn law_spy_unlisted_role_fails(n: SpyNodeView, c: Criteria, depth: int)
    requires
        c.roles.len() > 0,
        forall|i: int| 0 <= i < c.roles.len() ==> !role_ok(n.role, #[trigger] c.roles[i], c.ignore_role_case),
    ensures
        !spy_matches(n, c, depth),
{
}

/// A matching node has every required property, at any index, with a value that
/// satisfies the expected text.
pub proof fn law_spy_match_meets_every_property(n: SpyNodeView, c: Criteria, depth: int, i: int)
    requires
        spy_matches(n, c, depth),
        0 <= i < c.properties.len(),
    ensures
        lookup(n.properties, c.properties[i].0) is Some,
        property_ok(lookup(n.properties, c.properties[i].0)->0, c.properties[i].1),
{
}

pub open spec fn with_children(n: SpyNodeView, kids: Seq<SpyNodeView>) -> SpyNodeView {
    SpyNodeView { id: n.id, role: n.role, name: n.name, properties: n.properties, children: kids }
}

/// A node is kept, with its kept children, when it matches or some child is kept.
pub open spec fn spy_filter(n: SpyNodeView, c: Criteria, depth: int) -> Option<SpyNodeView>
    decreases n, 1int,
{
    if c.max_depth matches Some(m) && depth > m {
        None
    } else {
        let kids = if c.max_depth matches Some(m) && depth >= m {
            Seq::empty()
        } else {
            spy_collect(n.children, c, depth + 1)
        };
        if spy_matches(n, c, depth) || kids.len() > 0 {
            Some(with_children(n, kids))
        } else {
            None
        }
    }
}

/// The kept nodes among siblings at `depth`, in order.
pub open spec fn spy_collect(s: Seq<SpyNodeView>, c: Criteria, depth: int) -> Seq<SpyNodeView>
    decreases s, 0int,
{
    if s.len() == 0 {
        Seq::empty()
    } else {
        spy_collect(s.drop_last(), c, depth) + match spy_filter(s.last(), c, depth) {
            Some(x) => seq![x],
            None => Seq::empty(),
        }
    }
}

// ---------------------------------------------------------------------------
// Filtering
// ---------------------------------------------------------------------------

/// The criteria that matching uses once `c` is compiled.
pub open spec fn compiled_view(c: FilterCriteria) -> Criteria {
    Criteria {
        roles: c.roles@.map_values(|r: String| r@),
        pattern: match c.compiled_name_pattern {
            Some(p) => Some(p.source_view()),
            None => None,
        },
        properties: pairs_view(c.properties@),
        max_depth: c.max_depth,
        ignore_role_case: c.ignore_role_case,
    }
}

impl FilterCriteria {
    /// Compiles the name pattern (prefixed with `(?i)` when the name case is ignored)
    /// and lower-cases the roles when their case is ignored. On success, the criteria
    /// that matching uses are `effective` of the criteria before.
    pub fn compile(&mut self) -> (r: Result<(), SpyError>)
        ensures
            match r {
                Ok(()) => {
                    &&& pattern_error(*old(self)) is None
                    &&& compiled_view(*final(self)) == effective(*old(self))
                    &&& final(self).name_pattern == old(self).name_pattern
                    &&& final(self).include_properties == old(self).include_properties
                    &&& final(self).ignore_name_case == old(self).ignore_name_case
                },
                Err(SpyError::InvalidPattern(m)) => pattern_error(*old(self)) == Some(m@),
                Err(_) => false,
            },
    {
        let ghost before = *self;
        if let Some(pattern) = &self.name_pattern {
            let mut source = String::new();
            if self.ignore_name_case {
                push_str(&mut source, "(?i)");
            }
            push_str(&mut source, pattern.as_str());
            assert(pattern_source(before) == Some(source@));
            match NamePattern::compile(source.as_str()) {
                Err(message) => {
                    return Err(SpyError::InvalidPattern(message));
                },
                Ok(p) => {
                    self.compiled_name_pattern = Some(p);
                },
            }
        }
        if self.ignore_role_case {
            let mut lowered: Vec<String> = Vec::new();
            let mut i: usize = 0;
            while i < self.roles.len()
                invariant
                    i <= self.roles.len(),
                    self.roles == before.roles,
                    lowered@.len() == i,
                    lowered@.map_values(|r: String| r@) == before.roles@.map_values(
                        |r: String| lowercase(r@),
                    ).take(i as int),
                decreases self.roles.len() - i,
            {
                let l = to_lowercase(self.roles[i].as_str());
                lowered.push(l);
                assert(lowered@.map_values(|r: String| r@) =~= before.roles@.map_values(
                    |r: String| lowercase(r@),
                ).take(i + 1));
                i = i + 1;
            }
            assert(before.roles@.map_values(|r: String| lowercase(r@)).take(
                self.roles.len() as int,
            ) =~= before.roles@.map_values(|r: String| lowercase(r@)));
            self.roles = lowered;
        }
        Ok(())
    }
}

fn clone_string_pairs(v: &Vec<(String, String)>) -> (r: Vec<(String, String)>)
    ensures
        r@ == v@,
{
    let mut out: Vec<(String, String)> = Vec::new();
    let mut i: usize = 0;
    while i < v.len()
        invariant
            i <= v.len(),
            out@ == v@.take(i as int),
        decreases v.len() - i,
    {
        out.push((v[i].0.clone(), v[i].1.clone()));
        assert(out@ =~= v@.take(i + 1));
        i = i + 1;
    }
    assert(v@.take(v.len() as int) =~= v@);
    out
}

impl FilterCriteria {
    /// A copy of the criteria.
    pub fn clone_criteria(&self) -> (r: FilterCriteria)
        ensures
            r.roles@ == self.roles@,
            r.name_pattern == self.name_pattern,
            match (r.compiled_name_pattern, self.compiled_name_pattern) {
                (Some(a), Some(b)) => a.source_view() == b.source_view(),
                (None, None) => true,
                _ => false,
            },
            r.properties@ == self.properties@,
            r.max_depth == self.max_depth,
            r.include_properties == self.include_properties,
            r.ignore_role_case == self.ignore_role_case,
            r.ignore_name_case == self.ignore_name_case,
    {
        FilterCriteria {
            roles: crate::py_config::clone_strings(&self.roles),
            name_pattern: match &self.name_pattern {
                Some(p) => Some(p.clone()),
                None => None,
            },
            compiled_name_pattern: match &self.compiled_name_pattern {
                Some(p) => Some(p.clone_pattern()),
                None => None,
            },
            properties: clone_string_pairs(&self.properties),
            max_depth: self.max_depth,
            include_properties: self.include_properties,
            ignore_role_case: self.ignore_role_case,
            ignore_name_case: self.ignore_name_case,
        }
    }
}

fn property_matches(value: &JsonValue, expected: &String) -> (r: bool)
    ensures
        r == property_ok(value@, expected@),
{
    match value {
        JsonValue::Text(s) => str_eq(s.as_str(), expected.as_str()),
        _ => {
            let t = crate::model::json_to_text(value);
            str_eq(t.as_str(), expected.as_str())
        },
    }
}

impl UiNode {
    /// Whether the node itself satisfies compiled criteria at `depth`.
    fn matches(&self, filter: &FilterCriteria, depth: usize) -> (r: bool)
        ensures
            r == spy_matches(self@, compiled_view(*filter), depth as int),
    {
        let ghost c = compiled_view(*filter);
        if let Some(max_depth) = filter.max_depth {
            if depth > max_depth {
                return false;
            }
        }
        if filter.roles.len() > 0 {
            let node_role = if filter.ignore_role_case {
                to_lowercase(self.role.as_str())
            } else {
                self.role.clone()
            };
            let mut role_matches = false;
            let mut i: usize = 0;
            while i < filter.roles.len()
                invariant
                    i <= filter.roles.len(),
                    c == compiled_view(*filter),
                    c.roles.len() == filter.roles@.len(),
                    node_role@ == if filter.ignore_role_case {
                        lowercase(self.role@)
                    } else {
                        self.role@
                    },
                    role_matches == exists|k: int|
                        0 <= k < i && role_ok(self.role@, #[trigger] c.roles[k], c.ignore_role_case),
                decreases filter.roles.len() - i,
            {
                assert(c.roles[i as int] == filter.roles@[i as int]@);
                if str_eq(node_role.as_str(), filter.roles[i].as_str()) {
                    assert(role_ok(self.role@, c.roles[i as int], c.ignore_role_case));
                    role_matches = true;
                }
                i = i + 1;
            }
            if !role_matches {
                return false;
            }
        }
        if let Some(pattern) = &filter.compiled_name_pattern {
            let empty = String::new();
            let name: &String = match &self.name {
                Some(n) => n,
                None => &empty,
            };
            if !pattern.is_match(name.as_str()) {
                return false;
            }
        }
        let mut j: usize = 0;
        while j < filter.properties.len()
            invariant
                j <= filter.properties.len(),
                c == compiled_view(*filter),
                c.properties.len() == filter.properties@.len(),
                forall|k: int|
                    0 <= k < j ==> match lookup(self@.properties, (#[trigger] c.properties[k]).0) {
                        Some(v) => property_ok(v, c.properties[k].1),
                        None => false,
                    },
            decreases filter.properties.len() - j,
        {
            let key = &filter.properties[j].0;
            let expected = &filter.properties[j].1;
            assert(c.properties[j as int] == (key@, expected@));
            match crate::keyed::find_entry(&self.properties, key.as_str()) {
                None => {
                    return false;
                },
                Some(value) => {
                    if !property_matches(value, expected) {
                        return false;
                    }
                },
            }
            j = j + 1;
        }
        true
    }
}

proof fn lemma_spy_depth_free(n: SpyNodeView, c: Criteria, d1: int, d2: int)
    requires
        c.max_depth is None,
    ensures
        spy_filter(n, c, d1) == spy_filter(n, c, d2),
    decreases n, 1int,
{
    lemma_spy_collect_depth_free(n.children, c, d1 + 1, d2 + 1);
}

proof fn lemma_spy_collect_depth_free(s: Seq<SpyNodeView>, c: Criteria, d1: int, d2: int)
    requires
        c.max_depth is None,
    ensures
        spy_collect(s, c, d1) == spy_collect(s, c, d2),
    decreases s, 0int,
{
    if s.len() > 0 {
        lemma_spy_collect_depth_free(s.drop_last(), c, d1, d2);
        lemma_spy_depth_free(s.last(), c, d1, d2);
    }
}

fn clone_properties(p: &Vec<(String, JsonValue)>) -> (r: Vec<(String, JsonValue)>)
    ensures
        pairs_view(r@) == pairs_view(p@),
{
    crate::model::clone_attributes(p)
}

/// Filters one node at `depth` by compiled criteria.
fn filter_node(node: &UiNode, criteria: &FilterCriteria, depth: usize) -> (r: Option<UiNode>)
    requires
        criteria.max_depth matches Some(m) ==> depth <= m,
    ensures
        match r {
            Some(x) => spy_filter(node@, compiled_view(*criteria), depth as int) == Some(x@),
            None => spy_filter(node@, compiled_view(*criteria), depth as int) is None,
        },
    decreases node,
{
    let ghost c = compiled_view(*criteria);
    if let Some(max_depth) = criteria.max_depth {
        if depth > max_depth {
            return None;
        }
    }
    let ghost kids_spec = node@.children;
    proof {
        lemma_spy_views(node.children@);
    }
    let mut filtered_children: Vec<UiNode> = Vec::new();
    let descend = match criteria.max_depth {
        Some(max) => depth < max,
        None => true,
    };
    if descend {
        let next = if depth < usize::MAX {
            depth + 1
        } else {
            depth
        };
        let mut i: usize = 0;
        assert(spy_views(filtered_children@) =~= spy_collect(kids_spec.take(0), c, depth + 1));
        while i < node.children.len()
            invariant
                i <= node.children.len(),
                c == compiled_view(*criteria),
                criteria.max_depth matches Some(m) ==> next <= m && next == depth + 1,
                criteria.max_depth is None ==> (next == depth + 1 || next == depth),
                kids_spec == spy_views(node.children@),
                kids_spec.len() == node.children@.len(),
                forall|k: int|
                    0 <= k < node.children@.len() ==> #[trigger] kids_spec[k] == spy_view(
                        node.children@[k],
                    ),
                spy_views(filtered_children@) == spy_collect(kids_spec.take(i as int), c, depth + 1),
            decreases node.children.len() - i,
        {
            proof {
                assert(decreases_to!(node.children => node.children[i as int]));
            }
            let child = filter_node(&node.children[i], criteria, next);
            proof {
                if criteria.max_depth is None {
                    lemma_spy_depth_free(kids_spec[i as int], c, next as int, depth + 1);
                }
                assert(kids_spec.take(i + 1).drop_last() =~= kids_spec.take(i as int));
                assert(kids_spec.take(i + 1).last() == kids_spec[i as int]);
            }
            match child {
                Some(x) => {
                    let ghost prev = filtered_children@;
                    filtered_children.push(x);
                    proof {
                        lemma_spy_views_push(prev, x);
                    }
                    assert(spy_views(filtered_children@) =~= spy_collect(
                        kids_spec.take(i + 1),
                        c,
                        depth + 1,
                    ));
                },
                None => {
                    assert(spy_views(filtered_children@) =~= spy_collect(
                        kids_spec.take(i + 1),
                        c,
                        depth + 1,
                    ));
                },
            }
            i = i + 1;
        }
        assert(kids_spec.take(node.children.len() as int) =~= kids_spec);
    } else {
        assert(spy_views(filtered_children@) =~= Seq::<SpyNodeView>::empty());
    }
    let matches = node.matches(criteria, depth);
    if matches || filtered_children.len() > 0 {
        Some(
            UiNode {
                id: node.id.clone(),
                role: node.role.clone(),
                name: match &node.name {
                    Some(n) => Some(n.clone()),
                    None => None,
                },
                properties: clone_properties(&node.properties),
                children: filtered_children,
            },
        )
    } else {
        None
    }
}

/// Filters every root of a snapshot. Fails exactly when the name pattern does not
/// compile; otherwise the kept roots in order.
pub fn filter_tree(nodes: &Vec<UiNode>, criteria: &FilterCriteria) -> (r: Result<
    Vec<UiNode>,
    SpyError,
>)
    ensures
        match r {
            Ok(v) => pattern_error(*criteria) is None && spy_views(v@) == spy_collect(
                spy_views(nodes@),
                effective(*criteria),
                0,
            ),
            Err(SpyError::InvalidPattern(m)) => pattern_error(*criteria) == Some(m@),
            Err(_) => false,
        },
{
    let mut compiled = criteria.clone_criteria();
    assert(effective(compiled) == effective(*criteria));
    assert(pattern_error(compiled) == pattern_error(*criteria));
    match compiled.compile() {
        Err(e) => {
            return Err(e);
        },
        Ok(()) => {},
    }
    let ghost c = compiled_view(compiled);
    let ghost roots = spy_views(nodes@);
    proof {
        lemma_spy_views(nodes@);
    }
    let mut out: Vec<UiNode> = Vec::new();
    let mut i: usize = 0;
    assert(spy_views(out@) =~= spy_collect(roots.take(0), c, 0));
    while i < nodes.len()
        invariant
            i <= nodes.len(),
            c == compiled_view(compiled),
            roots == spy_views(nodes@),
            roots.len() == nodes@.len(),
            forall|k: int| 0 <= k < nodes@.len() ==> #[trigger] roots[k] == spy_view(nodes@[k]),
            spy_views(out@) == spy_collect(roots.take(i as int), c, 0),
        decreases nodes.len() - i,
    {
        let kept = filter_node(&nodes[i], &compiled, 0);
        assert(roots.take(i + 1).drop_last() =~= roots.take(i as int));
        assert(roots.take(i + 1).last() == roots[i as int]);
        match kept {
            Some(x) => {
                let ghost prev = out@;
                out.push(x);
                proof {
                    lemma_spy_views_push(prev, x);
                }
                assert(spy_views(out@) =~= spy_collect(roots.take(i + 1), c, 0));
            },
            None => {
                assert(spy_views(out@) =~= spy_collect(roots.take(i + 1), c, 0));
            },
        }
        i = i + 1;
    }
    assert(roots.take(nodes.len() as int) =~= roots);
    Ok(out)
}

// ---------------------------------------------------------------------------
// Laws of filtering
// ---------------------------------------------------------------------------

/// Criteria that ask for nothing.
pub open spec fn spy_no_criteria(c: Criteria) -> bool {
    &&& c.roles.len() == 0
    &&& c.pattern is None
    &&& c.properties.len() == 0
    &&& c.max_depth is None
}

proof fn lemma_spy_identity(n: SpyNodeView, c: Criteria, depth: int)
    requires
        spy_no_criteria(c),
    ensures
        spy_filter(n, c, depth) == Some(n),
    decreases n, 1int,
{
    lemma_spy_identity_collect(n.children, c, depth + 1);
    assert(with_children(n, n.children) == n);
}

proof fn lemma_spy_identity_collect(s: Seq<SpyNodeView>, c: Criteria, depth: int)
    requires
        spy_no_criteria(c),
    ensures
        spy_collect(s, c, depth) == s,
    decreases s, 0int,
{
    if s.len() == 0 {
        assert(spy_collect(s, c, depth) =~= s);
    } else {
        lemma_spy_identity_collect(s.drop_last(), c, depth);
        lemma_spy_identity(s.last(), c, depth);
        assert(s.drop_last() + seq![s.last()] =~= s);
    }
}

/// Criteria that ask for nothing keep every snapshot as it is.
pub proof fn law_spy_filter_without_criteria_is_identity(roots: Seq<SpyNodeView>, c: Criteria)
    requires
        spy_no_criteria(c),
    ensures
        spy_collect(roots, c, 0) == roots,
{
    lemma_spy_identity_collect(roots, c, 0);
}

/// Every leaf of `n`, taken at `depth` for `n` and one more per level below, satisfies
/// the criteria.
pub open spec fn spy_leaves_match(n: SpyNodeView, c: Criteria, depth: int) -> bool
    decreases n, 1int,
{
    &&& (n.children.len() == 0 ==> spy_matches(n, c, depth))
    &&& forall|i: int|
        0 <= i < n.children.len() ==> #[trigger] spy_leaves_match_at(n.children, i, c, depth + 1)
}

pub open spec fn spy_leaves_match_at(s: Seq<SpyNodeView>, i: int, c: Criteria, depth: int) -> bool
    decreases s, 0int,
{
    if 0 <= i < s.len() {
        spy_leaves_match(s[i], c, depth)
    } else {
        true
    }
}

proof fn lemma_spy_leaves(n: SpyNodeView, c: Criteria, depth: int)
    ensures
        spy_filter(n, c, depth) matches Some(x) ==> spy_leaves_match(x, c, depth),
    decreases n, 1int,
{
    lemma_spy_leaves_collect(n.children, c, depth + 1);
    let kids = spy_collect(n.children, c, depth + 1);
    assert forall|i: int| 0 <= i < kids.len() implies #[trigger] spy_leaves_match_at(
        kids,
        i,
        c,
        depth + 1,
    ) by {
        assert(spy_leaves_match(kids[i], c, depth + 1));
    }
}

proof fn lemma_spy_leaves_collect(s: Seq<SpyNodeView>, c: Criteria, depth: int)
    ensures
        forall|i: int|
            0 <= i < spy_collect(s, c, depth).len() ==> spy_leaves_match(
                #[trigger] spy_collect(s, c, depth)[i],
                c,
                depth,
            ),
    decreases s, 0int,
{
    if s.len() > 0 {
        lemma_spy_leaves_collect(s.drop_last(), c, depth);
        lemma_spy_leaves(s.last(), c, depth);
        let a = spy_collect(s.drop_last(), c, depth);
        let b = match spy_filter(s.last(), c, depth) {
            Some(x) => seq![x],
            None => Seq::<SpyNodeView>::empty(),
        };
        assert forall|i: int| 0 <= i < (a + b).len() implies spy_leaves_match(
            #[trigger] (a + b)[i],
            c,
            depth,
        ) by {
            if i < a.len() {
                assert((a + b)[i] == a[i]);
            } else {
                assert((a + b)[i] == b[i - a.len()]);
            }
        }
    }
}

/// Ancestors are kept only for context: every leaf of a filtered snapshot satisfies
/// the criteria at its depth.
pub proof fn law_spy_filter_leaves_match(roots: Seq<SpyNodeView>, c: Criteria, i: int)
    requires
        0 <= i < spy_collect(roots, c, 0).len(),
    ensures
        spy_leaves_match(spy_collect(roots, c, 0)[i], c, 0),
{
    lemma_spy_leaves_collect(roots, c, 0);
}

/// Some node of the tree at `n`, taken at `depth` for `n` and one more per level
/// below, satisfies the criteria.
pub open spec fn spy_has_match(n: SpyNodeView, c: Criteria, depth: int) -> bool
    decreases n, 1int,
{
    spy_matches(n, c, depth) || spy_any_match(n.children, c, depth + 1)
}

/// Some tree among sibling trees at `depth` has a node that satisfies the criteria.
pub open spec fn spy_any_match(s: Seq<SpyNodeView>, c: Criteria, depth: int) -> bool
    decreases s, 0int,
{
    s.len() > 0 && (spy_any_match(s.drop_last(), c, depth) || spy_has_match(s.last(), c, depth))
}

proof fn lemma_spy_too_deep(n: SpyNodeView, c: Criteria, depth: int)
    requires
        c.max_depth matches Some(m) && depth > m,
    ensures
        !spy_has_match(n, c, depth),
    decreases n, 1int,
{
    lemma_spy_too_deep_all(n.children, c, depth + 1);
}

proof fn lemma_spy_too_deep_all(s: Seq<SpyNodeView>, c: Criteria, depth: int)
    requires
        c.max_depth matches Some(m) && depth > m,
    ensures
        !spy_any_match(s, c, depth),
    decreases s, 0int,
{
    if s.len() > 0 {
        lemma_spy_too_deep_all(s.drop_last(), c, depth);
        lemma_spy_too_deep(s.last(), c, depth);
    }
}

proof fn lemma_spy_kept_iff(n: SpyNodeView, c: Criteria, depth: int)
    ensures
        (spy_filter(n, c, depth) is Some) == spy_has_match(n, c, depth),
    decreases n, 1int,
{
    lemma_spy_collect_iff(n.children, c, depth + 1);
    if c.max_depth matches Some(m) && depth >= m {
        lemma_spy_too_deep_all(n.children, c, depth + 1);
    }
}

proof fn lemma_spy_collect_iff(s: Seq<SpyNodeView>, c: Criteria, depth: int)
    ensures
        (spy_collect(s, c, depth).len() > 0) == spy_any_match(s, c, depth),
    decreases s, 0int,
{
    if s.len() > 0 {
        lemma_spy_collect_iff(s.drop_last(), c, depth);
        lemma_spy_kept_iff(s.last(), c, depth);
    }
}

/// Filtering keeps every hit: a root stays exactly when it or some node below it (within
/// the depth limit) satisfies the criteria, and the result is empty exactly when no
/// node of the snapshot does.
pub proof fn law_spy_filter_keeps_every_hit(roots: Seq<SpyNodeView>, c: Criteria)
    ensures
        (spy_collect(roots, c, 0).len() > 0) == spy_any_match(roots, c, 0),
        forall|i: int|
            0 <= i < roots.len() ==> (spy_filter(#[trigger] roots[i], c, 0) is Some)
                == spy_has_match(roots[i], c, 0),
{
    lemma_spy_collect_iff(roots, c, 0);
    assert forall|i: int| 0 <= i < roots.len() implies (spy_filter(#[trigger] roots[i], c, 0)
        is Some) == spy_has_match(roots[i], c, 0) by {
        lemma_spy_kept_iff(roots[i], c, 0);
    }
}

/// A tree that filtering at `depth` keeps as it is: within the depth limit, each node
/// matching or having children.
pub open spec fn spy_settled(x: SpyNodeView, c: Criteria, depth: int) -> bool
    decreases x, 1int,
{
    &&& !(c.max_depth matches Some(m) && depth > m)
    &&& (spy_matches(x, c, depth) || x.children.len() > 0)
    &&& spy_all_settled(x.children, c, depth + 1)
}

pub open spec fn spy_all_settled(s: Seq<SpyNodeView>, c: Criteria, depth: int) -> bool
    decreases s, 0int,
{
    s.len() == 0 || (spy_all_settled(s.drop_last(), c, depth) && spy_settled(s.last(), c, depth))
}

proof fn lemma_spy_all_settled_concat(a: Seq<SpyNodeView>, b: Seq<SpyNodeView>, c: Criteria, d: int)
    requires
        spy_all_settled(a, c, d),
        spy_all_settled(b, c, d),
    ensures
        spy_all_settled(a + b, c, d),
    decreases b.len(),
{
    if b.len() == 0 {
        assert(a + b == a);
    } else {
        lemma_spy_all_settled_concat(a, b.drop_last(), c, d);
        assert((a + b).drop_last() == a + b.drop_last());
        assert((a + b).last() == b.last());
    }
}

proof fn lemma_spy_filter_settled(n: SpyNodeView, c: Criteria, d: int)
    ensures
        spy_filter(n, c, d) matches Some(x) ==> spy_settled(x, c, d),
    decreases n, 1int,
{
    lemma_spy_collect_settled(n.children, c, d + 1);
    assert(spy_all_settled(Seq::<SpyNodeView>::empty(), c, d + 1));
}

proof fn lemma_spy_collect_settled(s: Seq<SpyNodeView>, c: Criteria, d: int)
    ensures
        spy_all_settled(spy_collect(s, c, d), c, d),
    decreases s, 0int,
{
    if s.len() > 0 {
        lemma_spy_collect_settled(s.drop_last(), c, d);
        lemma_spy_filter_settled(s.last(), c, d);
        let b = match spy_filter(s.last(), c, d) {
            Some(x) => seq![x],
            None => Seq::<SpyNodeView>::empty(),
        };
        if b.len() > 0 {
            assert(b.drop_last().len() == 0);
            assert(spy_all_settled(b.drop_last(), c, d));
        }
        assert(spy_all_settled(b, c, d));
        lemma_spy_all_settled_concat(spy_collect(s.drop_last(), c, d), b, c, d);
    }
}

proof fn lemma_spy_settled_kept(x: SpyNodeView, c: Criteria, d: int)
    requires
        spy_settled(x, c, d),
    ensures
        spy_filter(x, c, d) == Some(x),
    decreases x, 1int,
{
    lemma_spy_settled_collect(x.children, c, d + 1);
    if c.max_depth matches Some(m) && d >= m {
        if x.children.len() > 0 {
            assert(spy_settled(x.children.last(), c, d + 1));
        }
        assert(x.children =~= Seq::<SpyNodeView>::empty());
    }
    assert(with_children(x, x.children) == x);
}

proof fn lemma_spy_settled_collect(s: Seq<SpyNodeView>, c: Criteria, d: int)
    requires
        spy_all_settled(s, c, d),
    ensures
        spy_collect(s, c, d) == s,
    decreases s, 0int,
{
    if s.len() == 0 {
        assert(spy_collect(s, c, d) =~= s);
    } else {
        lemma_spy_settled_collect(s.drop_last(), c, d);
        lemma_spy_settled_kept(s.last(), c, d);
        assert(s.drop_last() + seq![s.last()] =~= s);
    }
}

/// Filtering is idempotent: filtering an already filtered snapshot again, with the same
/// criteria, gives it back unchanged.
pub proof fn law_spy_filter_is_idempotent(roots: Seq<SpyNodeView>, c: Criteria)
    ensures
        spy_collect(spy_collect(roots, c, 0), c, 0) == spy_collect(roots, c, 0),
{
    lemma_spy_collect_settled(roots, c, 0);
    lemma_spy_settled_collect(spy_collect(roots, c, 0), c, 0);
}

/// Height of a snapshot tree: 0 for a leaf.
pub open spec fn spy_height(n: SpyNodeView) -> nat
    decreases n, 1int,
{
    let h = spy_max_height(n.children);
    if n.children.len() == 0 {
        0
    } else {
        h + 1
    }
}

/// The greatest height among sibling trees, 0 for none.
pub open spec fn spy_max_height(s: Seq<SpyNodeView>) -> nat
    decreases s, 0int,
{
    if s.len() == 0 {
        0
    } else {
        let a = spy_max_height(s.drop_last());
        let b = spy_height(s.last());
        if a >= b {
            a
        } else {
            b
        }
    }
}

proof fn lemma_spy_max_height_bound(s: Seq<SpyNodeView>, k: int)
    requires
        forall|i: int| 0 <= i < s.len() ==> spy_height(#[trigger] s[i]) <= k,
        k >= 0,
    ensures
        spy_max_height(s) <= k,
    decreases s.len(),
{
    if s.len() > 0 {
        assert forall|i: int| 0 <= i < s.drop_last().len() implies spy_height(
            #[trigger] s.drop_last()[i],
        ) <= k by {
            assert(s.drop_last()[i] == s[i]);
        }
        lemma_spy_max_height_bound(s.drop_last(), k);
        assert(spy_height(s[s.len() - 1]) <= k);
    }
}

proof fn lemma_spy_depth(n: SpyNodeView, c: Criteria, d: int)
    requires
        c.max_depth is Some,
        d >= 0,
    ensures
        spy_filter(n, c, d) matches Some(x) ==> spy_height(x) + d <= c.max_depth->0,
    decreases n, 1int,
{
    let m = c.max_depth->0;
    if d <= m {
        lemma_spy_depth_collect(n.children, c, d + 1);
        if d < m {
            let kids = spy_collect(n.children, c, d + 1);
            if kids.len() > 0 {
                assert(spy_height(kids[0]) + d + 1 <= m);
                lemma_spy_max_height_bound(kids, m - d - 1);
            }
        }
    }
}

proof fn lemma_spy_depth_collect(s: Seq<SpyNodeView>, c: Criteria, d: int)
    requires
        c.max_depth is Some,
        d >= 0,
    ensures
        forall|i: int|
            0 <= i < spy_collect(s, c, d).len() ==> spy_height(#[trigger] spy_collect(s, c, d)[i])
                + d <= c.max_depth->0,
    decreases s, 0int,
{
    if s.len() > 0 {
        lemma_spy_depth_collect(s.drop_last(), c, d);
        lemma_spy_depth(s.last(), c, d);
        let a = spy_collect(s.drop_last(), c, d);
        let b = match spy_filter(s.last(), c, d) {
            Some(x) => seq![x],
            None => Seq::<SpyNodeView>::empty(),
        };
        assert forall|i: int| 0 <= i < (a + b).len() implies spy_height(#[trigger] (a + b)[i])
            + d <= c.max_depth->0 by {
            if i < a.len() {
                assert((a + b)[i] == a[i]);
            } else {
                assert((a + b)[i] == b[i - a.len()]);
            }
        }
    }
}

/// With a depth limit, no filtered tree reaches below it: each kept root is no
/// higher than `max_depth`.
pub proof fn law_spy_filter_respects_depth_limit(roots: Seq<SpyNodeView>, c: Criteria, i: int)
    requires
        c.max_depth is Some,
        0 <= i < spy_collect(roots, c, 0).len(),
    ensures
        spy_height(spy_collect(roots, c, 0)[i]) <= c.max_depth->0,
{
    lemma_spy_depth_collect(roots, c, 0);
}

// ---------------------------------------------------------------------------
// Text output
// ---------------------------------------------------------------------------

/// `[role] name <id>`, or `[role] <id>` for a node without a name.
pub open spec fn spy_label(n: SpyNodeView) -> Seq<char> {
    match n.name {
        Some(nm) => seq!['['] + n.role + seq![']', ' '] + nm + seq![' ', '<'] + n.id + seq!['>'],
        None => seq!['['] + n.role + seq![']', ' ', '<'] + n.id + seq!['>'],
    }
}

/// One line `prefix key: value` per property, the value as compact JSON text.
pub open spec fn props_text(ps: Seq<(Seq<char>, JsonView)>, prefix: Seq<char>) -> Seq<char>
    decreases ps.len(),
{
    if ps.len() == 0 {
        Seq::empty()
    } else {
        props_text(ps.drop_last(), prefix) + prefix + ps.last().0 + seq![':', ' '] + json_text(
            ps.last().1,
        ) + seq!['\n']
    }
}

/// The text of a node and its subtree. A root has no branch glyph and passes no
/// indentation to its children; every other node starts with `prefix` and a branch glyph.
/// Properties, when shown, follow the label one per line.
pub open spec fn spy_node_text(
    n: SpyNodeView,
    root: bool,
    prefix: Seq<char>,
    last: bool,
    shown: bool,
) -> Seq<char>
    decreases n, 1int,
{
    let head = if root {
        Seq::empty()
    } else {
        prefix + connector(last)
    };
    let props = if shown && n.properties.len() > 0 {
        props_text(
            n.properties,
            prefix + if root {
                indent(true)
            } else {
                indent(last)
            },
        )
    } else {
        Seq::empty()
    };
    let child_prefix = if root {
        Seq::empty()
    } else {
        prefix + indent(last)
    };
    head + spy_label(n) + seq!['\n'] + props + spy_children_text(n.children, child_prefix, shown)
}

/// The text of sibling nodes below a parent; the last of them gets the closing glyph.
pub open spec fn spy_children_text(cs: Seq<SpyNodeView>, prefix: Seq<char>, shown: bool) -> Seq<
    char,
>
    decreases cs, 0int,
{
    if cs.len() == 0 {
        Seq::empty()
    } else {
        spy_node_text(cs[0], false, prefix, cs.len() == 1, shown) + spy_children_text(
            cs.drop_first(),
            prefix,
            shown,
        )
    }
}

/// The text of the roots of a snapshot, one after the other.
pub open spec fn spy_roots_text(ns: Seq<SpyNodeView>, shown: bool) -> Seq<char>
    decreases ns.len(),
{
    if ns.len() == 0 {
        Seq::empty()
    } else {
        spy_node_text(ns[0], true, Seq::empty(), ns.len() == 1, shown) + spy_roots_text(
            ns.drop_first(),
            shown,
        )
    }
}

/// The property lines of `a + b` are those of `a` followed by those of `b`: every
/// property gets its line, in order.
pub proof fn law_property_lines_concatenate(
    a: Seq<(Seq<char>, JsonView)>,
    b: Seq<(Seq<char>, JsonView)>,
    prefix: Seq<char>,
)
    ensures
        props_text(a + b, prefix) == props_text(a, prefix) + props_text(b, prefix),
    decreases b.len(),
{
    if b.len() == 0 {
        assert(a + b =~= a);
        assert(props_text(a, prefix) + Seq::<char>::empty() =~= props_text(a, prefix));
    } else {
        law_property_lines_concatenate(a, b.drop_last(), prefix);
        assert((a + b).drop_last() =~= a + b.drop_last());
        assert((a + b).last() == b.last());
        assert(props_text(a + b, prefix) =~= props_text(a, prefix) + props_text(b, prefix));
    }
}

/// The line of a single property: the prefix, the key, `: ` and the value's JSON text.
pub proof fn law_property_line(e: (Seq<char>, JsonView), prefix: Seq<char>)
    ensures
        props_text(seq![e], prefix) == prefix + e.0 + seq![':', ' '] + json_text(e.1) + seq!['\n'],
{
    assert(seq![e].drop_last() =~= Seq::<(Seq<char>, JsonView)>::empty());
    assert(props_text(seq![e].drop_last(), prefix) == Seq::<char>::empty());
    assert(seq![e].last() == e);
    assert(props_text(seq![e], prefix) =~= prefix + e.0 + seq![':', ' '] + json_text(e.1) + seq![
        '\n',
    ]);
}

/// Every child of a node gets its label line in the children's text: the prefix, `├── `
/// (or `└── ` for the last child), the child's label and a line break.
pub proof fn law_every_child_is_shown(cs: Seq<SpyNodeView>, prefix: Seq<char>, shown: bool, i: int)
    requires
        0 <= i < cs.len(),
    ensures
        crate::text::contains(
            spy_children_text(cs, prefix, shown),
            prefix + (if i == cs.len() - 1 {
                "└── "@
            } else {
                "├── "@
            }) + spy_label(cs[i]) + seq!['\n'],
        ),
    decreases cs.len(),
{
    let line = prefix + (if i == cs.len() - 1 {
        "└── "@
    } else {
        "├── "@
    }) + spy_label(cs[i]) + seq!['\n'];
    let a = spy_node_text(cs[0], false, prefix, cs.len() == 1, shown);
    let b = spy_children_text(cs.drop_first(), prefix, shown);
    assert(spy_children_text(cs, prefix, shown) == a + b);
    if i == 0 {
        assert((a + b).subrange(0, line.len() as int) =~= line);
        assert(crate::text::occurs_at(a + b, line, 0));
    } else {
        assert(cs.drop_first()[i - 1] == cs[i]);
        law_every_child_is_shown(cs.drop_first(), prefix, shown, i - 1);
        let k = choose|k: int| crate::text::occurs_at(b, line, k);
        assert((a + b).subrange(a.len() + k, a.len() + k + line.len()) =~= b.subrange(
            k,
            k + line.len(),
        ));
        assert(crate::text::occurs_at(a + b, line, a.len() + k));
    }
}

/// Below a node that is not the last of its siblings, its children's label lines carry
/// the node's prefix followed by the continuation `│   `; below the last one, four
/// spaces.
pub proof fn law_child_lines_continue_the_branch(
    n: SpyNodeView,
    prefix: Seq<char>,
    last: bool,
    shown: bool,
    i: int,
)
    requires
        0 <= i < n.children.len(),
    ensures
        crate::text::contains(
            spy_node_text(n, false, prefix, last, shown),
            prefix + (if last {
                "    "@
            } else {
                "│   "@
            }) + (if i == n.children.len() - 1 {
                "└── "@
            } else {
                "├── "@
            }) + spy_label(n.children[i]) + seq!['\n'],
        ),
{
    let cp = prefix + indent(last);
    law_every_child_is_shown(n.children, cp, shown, i);
    let conn = if i == n.children.len() - 1 {
        "└── "@
    } else {
        "├── "@
    };
    let inner = cp + conn + spy_label(n.children[i]) + seq!['\n'];
    let line = prefix + (if last {
        "    "@
    } else {
        "│   "@
    }) + conn + spy_label(n.children[i]) + seq!['\n'];
    assert(inner =~= line);
    let kids = spy_children_text(n.children, cp, shown);
    let t = spy_node_text(n, false, prefix, last, shown);
    let head = t.subrange(0, t.len() - kids.len());
    assert(t == head + kids);
    let k = choose|k: int| crate::text::occurs_at(kids, line, k);
    assert(t.subrange(head.len() + k, head.len() + k + line.len()) =~= kids.subrange(
        k,
        k + line.len(),
    ));
    assert(crate::text::occurs_at(t, line, head.len() + k));
}

/// The text of one root: its label line, its properties and its subtree.
pub open spec fn spy_root_text(n: SpyNodeView, shown: bool) -> Seq<char> {
    spy_node_text(n, true, Seq::empty(), true, shown)
}

proof fn lemma_root_text_any_last(n: SpyNodeView, last: bool, shown: bool)
    ensures
        spy_node_text(n, true, Seq::empty(), last, shown) == spy_root_text(n, shown),
{
}

/// The text of a forest is the texts of its roots, one after the other: the text of
/// `a + b` is the text of `a` followed by the text of `b`.
pub proof fn law_forest_text_concatenates(a: Seq<SpyNodeView>, b: Seq<SpyNodeView>, shown: bool)
    ensures
        spy_roots_text(a + b, shown) == spy_roots_text(a, shown) + spy_roots_text(b, shown),
    decreases a.len(),
{
    if a.len() == 0 {
        assert(a + b =~= b);
        assert(spy_roots_text(a, shown) == Seq::<char>::empty());
        assert(Seq::<char>::empty() + spy_roots_text(b, shown) =~= spy_roots_text(b, shown));
    } else {
        let ab = a + b;
        assert(ab[0] == a[0]);
        assert(ab.drop_first() =~= a.drop_first() + b);
        law_forest_text_concatenates(a.drop_first(), b, shown);
        lemma_root_text_any_last(a[0], ab.len() == 1, shown);
        lemma_root_text_any_last(a[0], a.len() == 1, shown);
        assert(spy_roots_text(ab, shown) == spy_node_text(a[0], true, Seq::empty(), ab.len() == 1, shown)
            + spy_roots_text(ab.drop_first(), shown));
        assert(spy_roots_text(a, shown) == spy_node_text(a[0], true, Seq::empty(), a.len() == 1, shown)
            + spy_roots_text(a.drop_first(), shown));
        assert(spy_roots_text(ab, shown) =~= spy_roots_text(a, shown) + spy_roots_text(b, shown));
    }
}

/// Every root of a forest is shown, in order: the text of the forest is the text of the
/// roots before root `i`, then root `i`'s own text (which opens with its label line),
/// then the text of the roots after it.
pub proof fn law_every_root_is_shown(ns: Seq<SpyNodeView>, i: int, shown: bool)
    requires
        0 <= i < ns.len(),
    ensures
        spy_roots_text(ns, shown) == spy_roots_text(ns.take(i), shown) + spy_root_text(ns[i], shown)
            + spy_roots_text(ns.skip(i + 1), shown),
        spy_root_text(ns[i], shown).subrange(0, spy_label(ns[i]).len() as int + 1) == spy_label(ns[i])
            + seq!['\n'],
{
    let one = seq![ns[i]];
    assert(ns =~= ns.take(i) + (one + ns.skip(i + 1)));
    law_forest_text_concatenates(ns.take(i), one + ns.skip(i + 1), shown);
    law_forest_text_concatenates(one, ns.skip(i + 1), shown);
    assert(one[0] == ns[i]);
    assert(one.drop_first() =~= Seq::<SpyNodeView>::empty());
    assert(spy_roots_text(one.drop_first(), shown) == Seq::<char>::empty());
    lemma_root_text_any_last(ns[i], true, shown);
    assert(spy_roots_text(one, shown) =~= spy_root_text(ns[i], shown));
    let n = ns[i];
    let lab = spy_label(n) + seq!['\n'];
    let t = spy_root_text(n, shown);
    assert(t == Seq::<char>::empty() + spy_label(n) + seq!['\n'] + (if shown && n.properties.len() > 0 {
        props_text(n.properties, Seq::<char>::empty() + indent(true))
    } else {
        Seq::<char>::empty()
    }) + spy_children_text(n.children, Seq::empty(), shown));
    assert(t.subrange(0, lab.len() as int) =~= lab);
}

/// Appends the label of a node and a line break.
fn write_spy_label(node: &UiNode, output: &mut String)
    ensures
        final(output)@ == old(output)@ + spy_label(node@) + seq!['\n'],
{
    push_char(output, '[');
    push_str(output, node.role.as_str());
    push_char(output, ']');
    push_char(output, ' ');
    match &node.name {
        Some(name) => {
            push_str(output, name.as_str());
            push_char(output, ' ');
        },
        None => {},
    }
    push_char(output, '<');
    push_str(output, node.id.as_str());
    push_char(output, '>');
    push_char(output, '\n');
    assert(output@ =~= old(output)@ + spy_label(node@) + seq!['\n']);
}

/// Appends one `prefix key: value` line per property.
fn write_props(props: &Vec<(String, JsonValue)>, prefix: &String, output: &mut String)
    ensures
        final(output)@ == old(output)@ + props_text(pairs_view(props@), prefix@),
{
    let ghost pv = pairs_view(props@);
    let mut i: usize = 0;
    while i < props.len()
        invariant
            i <= props.len(),
            pv == pairs_view(props@),
            pv.len() == props@.len(),
            output@ == old(output)@ + props_text(pv.take(i as int), prefix@),
        decreases props.len() - i,
    {
        let ghost before = output@;
        push_str(output, prefix.as_str());
        push_str(output, props[i].0.as_str());
        push_char(output, ':');
        push_char(output, ' ');
        write_json(output, &props[i].1);
        push_char(output, '\n');
        assert(pv[i as int] == (props@[i as int].0@, props@[i as int].1@));
        assert(pv.take(i + 1).drop_last() =~= pv.take(i as int));
        assert(output@ =~= before + prefix@ + pv[i as int].0 + seq![':', ' '] + json_text(
            pv[i as int].1,
        ) + seq!['\n']);
        assert(output@ =~= old(output)@ + props_text(pv.take(i + 1), prefix@));
        i = i + 1;
    }
    assert(pv.take(props.len() as int) =~= pv);
}

/// The indentation that a node passes on: for properties (`children` false) or for
/// its children.
fn prefix_after(prefix: &String, root: bool, is_last: bool, children: bool) -> (r: String)
    ensures
        r@ == if root {
            if children {
                Seq::<char>::empty()
            } else {
                prefix@ + indent(true)
            }
        } else {
            prefix@ + indent(is_last)
        },
{
    let mut out = String::new();
    if root && children {
        return out;
    }
    push_str(&mut out, prefix.as_str());
    if root || is_last {
        push_str(&mut out, "    ");
    } else {
        push_str(&mut out, "│   ");
    }
    out
}

/// Appends the text of one node and its subtree; `depth` 0 marks a root.
#[verifier::spinoff_prover]
#[verifier::rlimit(40)]
fn format_node_text(
    node: &UiNode,
    depth: usize,
    include_properties: bool,
    is_last: bool,
    output: &mut String,
    prefix: &String,
)
    ensures
        final(output)@ == old(output)@ + spy_node_text(
            node@,
            depth == 0,
            prefix@,
            is_last,
            include_properties,
        ),
    decreases node,
{
    let ghost root = depth == 0;
    if depth != 0 {
        push_str(output, prefix.as_str());
        if is_last {
            push_str(output, "└── ");
        } else {
            push_str(output, "├── ");
        }
    }
    write_spy_label(node, output);
    if include_properties && node.properties.len() > 0 {
        let props_prefix = prefix_after(prefix, depth == 0, is_last, false);
        write_props(&node.properties, &props_prefix, output);
    }
    let ghost after_props = output@;
    let child_prefix = prefix_after(prefix, depth == 0, is_last, true);
    let next = if depth < usize::MAX {
        depth + 1
    } else {
        depth
    };
    let ghost cs = node@.children;
    proof {
        lemma_spy_views(node.children@);
    }
    let n = node.children.len();
    let last_index = if n > 0 {
        n - 1
    } else {
        0
    };
    let mut idx: usize = 0;
    assert(cs.skip(0) =~= cs);
    while idx < n
        invariant
            idx <= n,
            n == node.children.len(),
            cs == node@.children,
            cs == spy_views(node.children@),
            cs.len() == n,
            forall|k: int| 0 <= k < n ==> #[trigger] cs[k] == spy_view(node.children@[k]),
            next != 0,
            n > 0 ==> last_index == n - 1,
            output@ + spy_children_text(cs.skip(idx as int), child_prefix@, include_properties)
                == after_props + spy_children_text(cs, child_prefix@, include_properties),
        decreases n - idx,
    {
        let ghost rest = cs.skip(idx as int);
        assert(rest[0] == cs[idx as int]);
        assert(rest.drop_first() =~= cs.skip(idx + 1));
        assert((rest.len() == 1) == (idx == last_index));
        proof {
            assert(decreases_to!(node.children => node.children[idx as int]));
        }
        let ghost pre = output@;
        format_node_text(
            &node.children[idx],
            next,
            include_properties,
            idx == last_index,
            output,
            &child_prefix,
        );
        assert(output@ + spy_children_text(cs.skip(idx + 1), child_prefix@, include_properties)
            =~= pre + spy_children_text(rest, child_prefix@, include_properties));
        idx = idx + 1;
    }
    assert(cs.skip(n as int).len() == 0);
    assert(output@ + spy_children_text(cs.skip(n as int), child_prefix@, include_properties)
        =~= output@);
    assert(output@ =~= old(output)@ + spy_node_text(
        node@,
        depth == 0,
        prefix@,
        is_last,
        include_properties,
    ));
}

/// The snapshot as an indented text tree: each root's label (`[role] name <id>`), its
/// properties as `key: value` lines when `include_properties` holds, and its
/// descendants under `├── ` / `└── ` branches; trailing whitespace removed.
pub fn format_tree_text(nodes: &Vec<UiNode>, include_properties: bool) -> (r: String)
    ensures
        r@ == trim_end(spy_roots_text(spy_views(nodes@), include_properties)),
{
    let ghost ns = spy_views(nodes@);
    proof {
        lemma_spy_views(nodes@);
    }
    let mut output = String::new();
    let empty = String::new();
    let n = nodes.len();
    let last_index = if n > 0 {
        n - 1
    } else {
        0
    };
    let mut idx: usize = 0;
    assert(ns.skip(0) =~= ns);
    assert(output@ =~= Seq::<char>::empty());
    while idx < n
        invariant
            idx <= n,
            n == nodes.len(),
            ns.len() == n,
            ns == spy_views(nodes@),
            forall|k: int| 0 <= k < n ==> #[trigger] ns[k] == spy_view(nodes@[k]),
            n > 0 ==> last_index == n - 1,
            empty@ == Seq::<char>::empty(),
            output@ + spy_roots_text(ns.skip(idx as int), include_properties) == spy_roots_text(
                ns,
                include_properties,
            ),
        decreases n - idx,
    {
        let ghost rest = ns.skip(idx as int);
        assert(rest[0] == ns[idx as int]);
        assert(rest.drop_first() =~= ns.skip(idx + 1));
        assert((rest.len() == 1) == (idx == last_index));
        let ghost pre = output@;
        format_node_text(&nodes[idx], 0, include_properties, idx == last_index, &mut output, &empty);
        assert(output@ + spy_roots_text(ns.skip(idx + 1), include_properties) =~= pre
            + spy_roots_text(rest, include_properties));
        idx = idx + 1;
    }
    assert(ns.skip(n as int).len() == 0);
    assert(output@ + spy_roots_text(ns.skip(n as int), include_properties) =~= output@);
    trim_end_str(output.as_str())
}

// ---------------------------------------------------------------------------
// Input
// ---------------------------------------------------------------------------

/// How a snapshot payload is read: a JSON array of roots, nothing at all, or one root.
#[derive(PartialEq, Eq, Structural, Clone, Copy, Debug)]
pub enum PayloadShape {
    Forest,
    Empty,
    Single,
}

/// The shape of a payload: an array when its first non-blank character is `[`, empty
/// when it is blank, otherwise a single node.
pub open spec fn shape_of(raw: Seq<char>) -> PayloadShape {
    if trim_start(raw).len() > 0 && trim_start(raw)[0] == '[' {
        PayloadShape::Forest
    } else if trim(raw).len() == 0 {
        PayloadShape::Empty
    } else {
        PayloadShape::Single
    }
}

/// Decides how a snapshot payload is to be parsed.
pub fn payload_shape(raw: &str) -> (r: PayloadShape)
    ensures
        r == shape_of(raw@),
{
    let lead = chars_of(trim_start_str(raw).as_str());
    if lead.len() > 0 && lead[0] == '[' {
        PayloadShape::Forest
    } else if trim_str(raw).as_str().is_empty() {
        PayloadShape::Empty
    } else {
        PayloadShape::Single
    }
}

/// Splits a `key=value` command-line property at its first `=` and trims both sides;
/// the key must not be blank.
pub fn parse_property(raw: &str) -> (r: Result<(String, String), String>)
    ensures
        match r {
            Ok((k, v)) => split_once(raw@, '=') matches Some((key, value)) && trim(key).len() > 0
                && k@ == trim(key) && v@ == trim(value),
            Err(m) => match split_once(raw@, '=') {
                None => m@ == "properties must be expressed as key=value"@,
                Some((key, _)) => trim(key).len() == 0 && m@ == "property key must not be empty"@,
            },
        },
{
    let cs = chars_of(raw);
    match split_once_chars(&cs, '=') {
        None => Err(String::from_str("properties must be expressed as key=value")),
        Some((key, value)) => {
            let k = trim_chars(&key);
            if k.len() == 0 {
                return Err(String::from_str("property key must not be empty"));
            }
            let v = trim_chars(&value);
            Ok((string_of(&k), string_of(&v)))
        },
    }
}

} // verus!
