//! Rendering a UI tree as an ASCII tree, one labelled node per line.
use vstd::prelude::*;

use crate::attributes::{essential_attributes, essential_spec, strings_view, AttributeConfig, AttributeSet};
use crate::model::{json_value_to_string, lemma_view_nodes, plain_text, JsonView, NodeView, UiNode};
use crate::text::{eq_ignore_ascii_case, eq_ignore_case, push_char, push_str};

verus! {

// ---------------------------------------------------------------------------
// Which attributes a label shows
// ---------------------------------------------------------------------------

/// The first entry whose key equals `key` up to ASCII case.
pub open spec fn find_ci(attrs: Seq<(Seq<char>, JsonView)>, key: Seq<char>) -> Option<
    (Seq<char>, JsonView),
>
    decreases attrs.len(),
{
    if attrs.len() == 0 {
        None
    } else if eq_ignore_case(attrs[0].0, key) {
        Some(attrs[0])
    } else {
        find_ci(attrs.drop_first(), key)
    }
}

/// `s` with every key dropped that equals an earlier one up to ASCII case.
pub open spec fn dedupe_ci(s: Seq<Seq<char>>) -> Seq<Seq<char>>
    decreases s.len(),
{
    if s.len() == 0 {
        Seq::empty()
    } else {
        let prev = dedupe_ci(s.drop_last());
        if crate::attributes::has_ci(prev, s.last()) {
            prev
        } else {
            prev.push(s.last())
        }
    }
}

/// The keys a label asks for, in order, when the set is not `Full`.
pub open spec fn wanted_keys(set: AttributeSet, additional: Seq<Seq<char>>) -> Seq<Seq<char>> {
    dedupe_ci(
        if set == AttributeSet::Essential {
            essential_spec() + additional
        } else {
            additional
        },
    )
}

/// For each wanted key in order, the first attribute whose key equals it up to ASCII case.
pub open spec fn pick(attrs: Seq<(Seq<char>, JsonView)>, keys: Seq<Seq<char>>) -> Seq<
    (Seq<char>, JsonView),
>
    decreases keys.len(),
{
    if keys.len() == 0 {
        Seq::empty()
    } else {
        pick(attrs, keys.drop_last()) + match find_ci(attrs, keys.last()) {
            Some(e) => seq![e],
            None => Seq::empty(),
        }
    }
}

/// The attributes a label shows: all of them for `Full`, otherwise the picked ones.
pub open spec fn selected(n: NodeView, set: AttributeSet, additional: Seq<Seq<char>>) -> Seq<
    (Seq<char>, JsonView),
> {
    if set == AttributeSet::Full {
        n.attributes
    } else {
        pick(n.attributes, wanted_keys(set, additional))
    }
}

// ---------------------------------------------------------------------------
// Labels and lines
// ---------------------------------------------------------------------------

/// `key=value` pairs joined by ", ".
pub open spec fn pairs_text(s: Seq<(Seq<char>, JsonView)>) -> Seq<char>
    decreases s.len(),
{
    if s.len() == 0 {
        Seq::empty()
    } else if s.len() == 1 {
        s[0].0 + seq!['='] + plain_text(s[0].1)
    } else {
        pairs_text(s.drop_last()) + seq![',', ' '] + s.last().0 + seq!['='] + plain_text(s.last().1)
    }
}

/// The label of a node: its name (or `<unnamed>`), ` [role]` for a non-empty role, and
/// ` {k=v, ...}` for the shown attributes, if any.
pub open spec fn label(n: NodeView, set: AttributeSet, additional: Seq<Seq<char>>) -> Seq<char> {
    let base = if n.name.len() == 0 {
        "<unnamed>"@
    } else {
        n.name
    };
    let role = match n.role {
        Some(r) => if r.len() > 0 {
            seq![' ', '['] + r + seq![']']
        } else {
            Seq::empty()
        },
        None => Seq::empty(),
    };
    let sel = selected(n, set, additional);
    let attrs = if sel.len() == 0 {
        Seq::empty()
    } else {
        seq![' ', '{'] + pairs_text(sel) + seq!['}']
    };
    base + role + attrs
}

pub open spec fn connector(last: bool) -> Seq<char> {
    if last {
        "└── "@
    } else {
        "├── "@
    }
}

pub open spec fn indent(last: bool) -> Seq<char> {
    if last {
        "    "@
    } else {
        "│   "@
    }
}

/// The lines of a child node and its subtree: `prefix`, the branch glyph, the label,
/// then its own children one level further in.
pub open spec fn node_lines(
    n: NodeView,
    prefix: Seq<char>,
    last: bool,
    set: AttributeSet,
    additional: Seq<Seq<char>>,
) -> Seq<Seq<char>>
    decreases n, 1int,
{
    seq![prefix + connector(last) + label(n, set, additional)] + child_lines(
        n.children,
        prefix + indent(last),
        set,
        additional,
    )
}

/// The lines of sibling nodes; the last of them gets the closing glyph.
pub open spec fn child_lines(
    cs: Seq<NodeView>,
    prefix: Seq<char>,
    set: AttributeSet,
    additional: Seq<Seq<char>>,
) -> Seq<Seq<char>>
    decreases cs, 0int,
{
    if cs.len() == 0 {
        Seq::empty()
    } else {
        node_lines(cs[0], prefix, cs.len() == 1, set, additional) + child_lines(
            cs.drop_first(),
            prefix,
            set,
            additional,
        )
    }
}

/// All lines of a tree: the root label, then its children.
pub open spec fn tree_lines(n: NodeView, set: AttributeSet, additional: Seq<Seq<char>>) -> Seq<
    Seq<char>,
> {
    seq![label(n, set, additional)] + child_lines(n.children, Seq::empty(), set, additional)
}

/// Lines joined by '\n'.
pub open spec fn join_lines(ls: Seq<Seq<char>>) -> Seq<char>
    decreases ls.len(),
{
    if ls.len() == 0 {
        Seq::empty()
    } else if ls.len() == 1 {
        ls[0]
    } else {
        join_lines(ls.drop_last()) + seq!['\n'] + ls.last()
    }
}

/// Every wanted key that some attribute carries (up to ASCII case) is shown: the first
/// such attribute appears among the picked ones.
pub proof fn law_pick_shows_every_found_key(
    attrs: Seq<(Seq<char>, JsonView)>,
    keys: Seq<Seq<char>>,
    k: int,
)
    requires
        0 <= k < keys.len(),
        find_ci(attrs, keys[k]) is Some,
    ensures
        pick(attrs, keys).contains(find_ci(attrs, keys[k])->0),
    decreases keys.len(),
{
    let e = find_ci(attrs, keys[k])->0;
    let a = pick(attrs, keys.drop_last());
    let b = match find_ci(attrs, keys.last()) {
        Some(x) => seq![x],
        None => Seq::<(Seq<char>, JsonView)>::empty(),
    };
    assert(pick(attrs, keys) == a + b);
    if k == keys.len() - 1 {
        assert(b[0] == e);
        assert((a + b)[a.len() as int] == e);
    } else {
        assert(keys.drop_last()[k] == keys[k]);
        law_pick_shows_every_found_key(attrs, keys.drop_last(), k);
        let j = choose|j: int| 0 <= j < a.len() && a[j] == e;
        assert((a + b)[j] == e);
    }
}

// ---------------------------------------------------------------------------
// Laws of the tree layout
// ---------------------------------------------------------------------------

/// `s` begins with `p`.
pub open spec fn starts_with(s: Seq<char>, p: Seq<char>) -> bool {
    p.len() <= s.len() && s.subrange(0, p.len() as int) == p
}

proof fn lemma_starts_with_shorter(s: Seq<char>, p: Seq<char>, q: Seq<char>)
    requires
        starts_with(s, p + q),
    ensures
        starts_with(s, p),
{
    assert(s.subrange(0, p.len() as int) =~= (p + q).subrange(0, p.len() as int));
    assert((p + q).subrange(0, p.len() as int) =~= p);
}

proof fn lemma_node_lines_start(
    n: NodeView,
    prefix: Seq<char>,
    last: bool,
    set: AttributeSet,
    additional: Seq<Seq<char>>,
)
    ensures
        forall|k: int|
            0 <= k < node_lines(n, prefix, last, set, additional).len() ==> starts_with(
                #[trigger] node_lines(n, prefix, last, set, additional)[k],
                prefix,
            ),
        forall|k: int|
            1 <= k < node_lines(n, prefix, last, set, additional).len() ==> starts_with(
                #[trigger] node_lines(n, prefix, last, set, additional)[k],
                prefix + indent(last),
            ),
    decreases n, 1int,
{
    let head = prefix + connector(last) + label(n, set, additional);
    let rest = child_lines(n.children, prefix + indent(last), set, additional);
    lemma_child_lines_start(n.children, prefix + indent(last), set, additional);
    let all = seq![head] + rest;
    assert(all == node_lines(n, prefix, last, set, additional));
    assert forall|k: int| 0 <= k < all.len() implies starts_with(#[trigger] all[k], prefix) by {
        if k == 0 {
            assert(head.subrange(0, prefix.len() as int) =~= prefix);
        } else {
            assert(all[k] == rest[k - 1]);
            lemma_starts_with_shorter(rest[k - 1], prefix, indent(last));
        }
    }
    assert forall|k: int| 1 <= k < all.len() implies starts_with(
        #[trigger] all[k],
        prefix + indent(last),
    ) by {
        assert(all[k] == rest[k - 1]);
    }
}

proof fn lemma_child_lines_start(
    cs: Seq<NodeView>,
    prefix: Seq<char>,
    set: AttributeSet,
    additional: Seq<Seq<char>>,
)
    ensures
        forall|k: int|
            0 <= k < child_lines(cs, prefix, set, additional).len() ==> starts_with(
                #[trigger] child_lines(cs, prefix, set, additional)[k],
                prefix,
            ),
    decreases cs, 0int,
{
    if cs.len() > 0 {
        lemma_node_lines_start(cs[0], prefix, cs.len() == 1, set, additional);
        lemma_child_lines_start(cs.drop_first(), prefix, set, additional);
        let a = node_lines(cs[0], prefix, cs.len() == 1, set, additional);
        let b = child_lines(cs.drop_first(), prefix, set, additional);
        assert forall|k: int| 0 <= k < (a + b).len() implies starts_with(#[trigger] (a + b)[k], prefix) by {
            if k < a.len() {
                assert((a + b)[k] == a[k]);
            } else {
                assert((a + b)[k] == b[k - a.len()]);
            }
        }
    }
}

/// Every child gets its own line, in the child list of its parent: the prefix, `├── `
/// (or `└── ` for the last child) and the child's label.
pub proof fn law_every_child_gets_a_line(
    cs: Seq<NodeView>,
    prefix: Seq<char>,
    set: AttributeSet,
    additional: Seq<Seq<char>>,
    i: int,
)
    requires
        0 <= i < cs.len(),
    ensures
        child_lines(cs, prefix, set, additional).contains(
            prefix + (if i == cs.len() - 1 {
                "└── "@
            } else {
                "├── "@
            }) + label(cs[i], set, additional),
        ),
    decreases cs.len(),
{
    let a = node_lines(cs[0], prefix, cs.len() == 1, set, additional);
    let b = child_lines(cs.drop_first(), prefix, set, additional);
    assert(child_lines(cs, prefix, set, additional) == a + b);
    let line = prefix + (if i == cs.len() - 1 {
        "└── "@
    } else {
        "├── "@
    }) + label(cs[i], set, additional);
    if i == 0 {
        assert(a[0] == line);
        assert((a + b)[0] == line);
    } else {
        assert(cs.drop_first()[i - 1] == cs[i]);
        law_every_child_gets_a_line(cs.drop_first(), prefix, set, additional, i - 1);
        let j = choose|j: int| 0 <= j < b.len() && b[j] == line;
        assert((a + b)[a.len() + j] == line);
    }
}

/// Below a child that is not the last of its siblings, every line carries the parent's
/// prefix followed by the continuation `│   `; below the last child, four spaces.
pub proof fn law_descendant_lines_continue_the_branch(
    n: NodeView,
    prefix: Seq<char>,
    last: bool,
    set: AttributeSet,
    additional: Seq<Seq<char>>,
    k: int,
)
    requires
        1 <= k < node_lines(n, prefix, last, set, additional).len(),
    ensures
        !last ==> starts_with(node_lines(n, prefix, last, set, additional)[k], prefix + "│   "@),
        last ==> starts_with(node_lines(n, prefix, last, set, additional)[k], prefix + "    "@),
{
    lemma_node_lines_start(n, prefix, last, set, additional);
}

/// The first line of a child is its prefix, the branch glyph (`├── `, or `└── ` for the
/// last child) and its label.
pub proof fn law_child_line_shows_branch_and_label(
    n: NodeView,
    prefix: Seq<char>,
    last: bool,
    set: AttributeSet,
    additional: Seq<Seq<char>>,
)
    ensures
        node_lines(n, prefix, last, set, additional)[0] == prefix + (if last {
            "└── "@
        } else {
            "├── "@
        }) + label(n, set, additional),
{
}

// ---------------------------------------------------------------------------
// Execution
// ---------------------------------------------------------------------------

fn contains_ci(keys: &Vec<String>, key: &String) -> (r: bool)
    ensures
        r == crate::attributes::has_ci(strings_view(keys@), key@),
{
    let ghost sv = strings_view(keys@);
    let mut i: usize = 0;
    while i < keys.len()
        invariant
            i <= keys.len(),
            sv == strings_view(keys@),
            forall|k: int| 0 <= k < i ==> !eq_ignore_case(#[trigger] sv[k], key@),
        decreases keys.len() - i,
    {
        if eq_ignore_ascii_case(keys[i].as_str(), key.as_str()) {
            assert(eq_ignore_case(sv[i as int], key@));
            return true;
        }
        i = i + 1;
    }
    false
}

fn wanted(config: &AttributeConfig) -> (r: Vec<String>)
    requires
        config.set != AttributeSet::Full,
    ensures
        strings_view(r@) == wanted_keys(config.set, strings_view(config.additional@)),
{
    let mut candidates: Vec<String> = Vec::new();
    if config.set == AttributeSet::Essential {
        candidates = essential_attributes();
    }
    let ghost head = strings_view(candidates@);
    let mut i: usize = 0;
    while i < config.additional.len()
        invariant
            i <= config.additional.len(),
            candidates@.len() == head.len() + i,
            strings_view(candidates@) == head + strings_view(config.additional@).take(i as int),
        decreases config.additional.len() - i,
    {
        let c = config.additional[i].clone();
        let ghost prev = strings_view(candidates@);
        assert(c@ == strings_view(config.additional@)[i as int]);
        candidates.push(c);
        assert(strings_view(candidates@) =~= prev.push(c@));
        assert(strings_view(candidates@) =~= head + strings_view(config.additional@).take(i + 1));
        i = i + 1;
    }
    assert(strings_view(config.additional@).take(config.additional.len() as int) =~= strings_view(
        config.additional@,
    ));
    let ghost all = strings_view(candidates@);
    assert(all == if config.set == AttributeSet::Essential {
        essential_spec() + strings_view(config.additional@)
    } else {
        strings_view(config.additional@)
    }) by {
        if config.set != AttributeSet::Essential {
            assert(head =~= Seq::<Seq<char>>::empty());
            assert(all =~= strings_view(config.additional@));
        }
    }
    let mut order: Vec<String> = Vec::new();
    let mut j: usize = 0;
    while j < candidates.len()
        invariant
            j <= candidates.len(),
            all == strings_view(candidates@),
            strings_view(order@) == dedupe_ci(all.take(j as int)),
        decreases candidates.len() - j,
    {
        assert(all.take(j + 1).drop_last() =~= all.take(j as int));
        assert(all[j as int] == candidates@[j as int]@);
        if !contains_ci(&order, &candidates[j]) {
            let ghost prev = strings_view(order@);
            order.push(candidates[j].clone());
            assert(strings_view(order@) =~= prev.push(all[j as int]));
        }
        j = j + 1;
    }
    assert(all.take(candidates.len() as int) =~= all);
    order
}

/// Index of the first attribute whose key equals `key` up to ASCII case.
fn find_ci_index(node: &UiNode, key: &String) -> (r: Option<usize>)
    ensures
        match r {
            Some(i) => i < node.attributes@.len() && find_ci(node@.attributes, key@) == Some(
                node@.attributes[i as int],
            ),
            None => find_ci(node@.attributes, key@) is None,
        },
{
    let ghost attrs = node@.attributes;
    let mut i: usize = 0;
    assert(attrs.skip(0) =~= attrs);
    while i < node.attributes.len()
        invariant
            i <= node.attributes.len(),
            attrs == node@.attributes,
            attrs.len() == node.attributes@.len(),
            find_ci(attrs, key@) == find_ci(attrs.skip(i as int), key@),
        decreases node.attributes.len() - i,
    {
        let ghost rest = attrs.skip(i as int);
        assert(rest.len() > 0);
        assert(rest[0] == attrs[i as int]);
        assert(attrs[i as int].0 == node.attributes@[i as int].0@);
        if eq_ignore_ascii_case(node.attributes[i].0.as_str(), key.as_str()) {
            return Some(i);
        }
        assert(rest.drop_first() =~= attrs.skip(i + 1));
        i = i + 1;
    }
    None
}

/// Indices of the attributes the label shows, in display order.
fn selected_attributes(node: &UiNode, config: &AttributeConfig) -> (r: Vec<usize>)
    ensures
        forall|k: int| 0 <= k < r@.len() ==> r@[k] < node.attributes@.len(),
        r@.map_values(|i: usize| node@.attributes[i as int]) == selected(
            node@,
            config.set,
            strings_view(config.additional@),
        ),
{
    let mut out: Vec<usize> = Vec::new();
    if config.set == AttributeSet::Full {
        let mut i: usize = 0;
        while i < node.attributes.len()
            invariant
                i <= node.attributes.len(),
                node@.attributes.len() == node.attributes@.len(),
                out@.len() == i,
                forall|k: int| 0 <= k < i ==> out@[k] == k,
            decreases node.attributes.len() - i,
        {
            out.push(i);
            i = i + 1;
        }
        assert(out@.map_values(|i: usize| node@.attributes[i as int]) =~= node@.attributes);
        return out;
    }
    let order = wanted(config);
    let ghost keys = strings_view(order@);
    let mut t: usize = 0;
    while t < order.len()
        invariant
            t <= order.len(),
            keys == strings_view(order@),
            forall|k: int| 0 <= k < out@.len() ==> out@[k] < node.attributes@.len(),
            out@.map_values(|i: usize| node@.attributes[i as int]) == pick(
                node@.attributes,
                keys.take(t as int),
            ),
        decreases order.len() - t,
    {
        assert(keys.take(t + 1).drop_last() =~= keys.take(t as int));
        assert(keys[t as int] == order@[t as int]@);
        let ghost prev = out@;
        match find_ci_index(node, &order[t]) {
            Some(i) => {
                out.push(i);
                assert(out@.map_values(|i: usize| node@.attributes[i as int]) =~= prev.map_values(
                    |i: usize| node@.attributes[i as int],
                ).push(node@.attributes[i as int]));
            },
            None => {
                assert(out@ == prev);
            },
        }
        t = t + 1;
    }
    assert(keys.take(order.len() as int) =~= keys);
    out
}

/// The label of a node: name (or `<unnamed>`), ` [role]`, ` {k=v, ...}`.
pub fn node_label(node: &UiNode, config: &AttributeConfig) -> (r: String)
    ensures
        r@ == label(node@, config.set, strings_view(config.additional@)),
{
    let mut out = String::new();
    if node.name.as_str().is_empty() {
        push_str(&mut out, "<unnamed>");
    } else {
        push_str(&mut out, node.name.as_str());
    }
    let ghost after_name = out@;
    if let Some(role) = &node.role {
        if !role.as_str().is_empty() {
            push_char(&mut out, ' ');
            push_char(&mut out, '[');
            push_str(&mut out, role.as_str());
            push_char(&mut out, ']');
        }
    }
    let ghost after_role = out@;
    let idx = selected_attributes(node, config);
    let ghost sel = idx@.map_values(|i: usize| node@.attributes[i as int]);
    if idx.len() > 0 {
        push_char(&mut out, ' ');
        push_char(&mut out, '{');
        let ghost start = out@;
        let mut k: usize = 0;
        while k < idx.len()
            invariant
                k <= idx.len(),
                sel == idx@.map_values(|i: usize| node@.attributes[i as int]),
                forall|m: int| 0 <= m < idx@.len() ==> idx@[m] < node.attributes@.len(),
                out@ == start + pairs_text(sel.take(k as int)),
            decreases idx.len() - k,
        {
            let a = idx[k];
            if k > 0 {
                push_char(&mut out, ',');
                push_char(&mut out, ' ');
            }
            proof {
                crate::model::lemma_json_entry_views(node.attributes@);
            }
            assert(sel[k as int] == node@.attributes[a as int]);
            assert(node@.attributes[a as int] == (node.attributes@[a as int].0@, node.attributes@[
                a as int].1@));
            push_str(&mut out, node.attributes[a].0.as_str());
            push_char(&mut out, '=');
            let v = json_value_to_string(&node.attributes[a].1);
            push_str(&mut out, v.as_str());
            assert(sel.take(k + 1).drop_last() =~= sel.take(k as int));
            if k == 0 {
                assert(sel.take(1)[0] == sel[0]);
            }
            assert(out@ =~= start + pairs_text(sel.take(k + 1)));
            k = k + 1;
        }
        assert(sel.take(idx.len() as int) =~= sel);
        push_char(&mut out, '}');
    }
    assert(out@ =~= label(node@, config.set, strings_view(config.additional@)));
    out
}

spec fn lines_view(v: Seq<String>) -> Seq<Seq<char>> {
    v.map_values(|s: String| s@)
}

#[verifier::loop_isolation(false)]
fn write_child(
    node: &UiNode,
    prefix: &String,
    is_last: bool,
    config: &AttributeConfig,
    lines: &mut Vec<String>,
)
    ensures
        lines_view(final(lines)@) == lines_view(old(lines)@) + node_lines(
            node@,
            prefix@,
            is_last,
            config.set,
            strings_view(config.additional@),
        ),
    decreases node,
{
    let ghost add = strings_view(config.additional@);
    let mut line = String::new();
    push_str(&mut line, prefix.as_str());
    if is_last {
        push_str(&mut line, "└── ");
    } else {
        push_str(&mut line, "├── ");
    }
    let l = node_label(node, config);
    push_str(&mut line, l.as_str());
    assert(line@ =~= prefix@ + connector(is_last) + label(node@, config.set, add));
    let ghost before = lines_view(lines@);
    lines.push(line);
    assert(lines_view(lines@) =~= before + seq![prefix@ + connector(is_last) + label(
        node@,
        config.set,
        add,
    )]);
    let mut child_prefix = String::new();
    push_str(&mut child_prefix, prefix.as_str());
    if is_last {
        push_str(&mut child_prefix, "    ");
    } else {
        push_str(&mut child_prefix, "│   ");
    }
    assert(child_prefix@ =~= prefix@ + indent(is_last));
    let ghost cs = node@.children;
    proof {
        lemma_view_nodes(node.children@);
    }
    let ghost mid = lines_view(lines@);
    let n = node.children.len();
    let last_index = if n > 0 {
        n - 1
    } else {
        0
    };
    let mut idx: usize = 0;
    assert(cs.skip(0) =~= cs);
    while idx < n
        invariant
            idx <= n,
            n == node.children.len(),
            cs.len() == n,
            lines_view(lines@) + child_lines(cs.skip(idx as int), child_prefix@, config.set, add)
                == mid + child_lines(cs, child_prefix@, config.set, add),
        decreases n - idx,
    {
        let ghost rest = cs.skip(idx as int);
        assert(rest[0] == cs[idx as int]);
        assert(rest.drop_first() =~= cs.skip(idx + 1));
        proof {
            assert(decreases_to!(node.children => node.children[idx as int]));
        }
        let ghost pre = lines_view(lines@);
        write_child(&node.children[idx], &child_prefix, idx == last_index, config, lines);
        assert(lines_view(lines@) + child_lines(cs.skip(idx + 1), child_prefix@, config.set, add)
            =~= pre + child_lines(rest, child_prefix@, config.set, add));
        idx = idx + 1;
    }
    assert(cs.skip(n as int).len() == 0);
    assert(lines_view(lines@) + child_lines(cs.skip(n as int), child_prefix@, config.set, add)
        =~= lines_view(lines@));
}

/// The tree below `node` as text: the root label, then one line per descendant with
/// `├── ` / `└── ` branches, lines joined by '\n'.
pub fn format_tree(node: &UiNode, attributes: &AttributeConfig) -> (r: String)
    ensures
        r@ == join_lines(tree_lines(node@, attributes.set, strings_view(attributes.additional@))),
{
    let ghost add = strings_view(attributes.additional@);
    let mut lines: Vec<String> = Vec::new();
    let l = node_label(node, attributes);
    lines.push(l);
    let empty = String::new();
    let ghost cs = node@.children;
    proof {
        lemma_view_nodes(node.children@);
    }
    let ghost first = lines_view(lines@);
    assert(first =~= seq![label(node@, attributes.set, add)]);
    let n = node.children.len();
    let last_index = if n > 0 {
        n - 1
    } else {
        0
    };
    let mut idx: usize = 0;
    assert(cs.skip(0) =~= cs);
    while idx < n
        invariant
            idx <= n,
            n == node.children.len(),
            cs.len() == n,
            cs == node@.children,
            add == strings_view(attributes.additional@),
            n > 0 ==> last_index == n - 1,
            forall|k: int| 0 <= k < n ==> #[trigger] cs[k] == node.children@[k]@,
            empty@ == Seq::<char>::empty(),
            lines_view(lines@) + child_lines(cs.skip(idx as int), empty@, attributes.set, add)
                == first + child_lines(cs, empty@, attributes.set, add),
        decreases n - idx,
    {
        let ghost rest = cs.skip(idx as int);
        assert(rest[0] == cs[idx as int]);
        assert(rest.drop_first() =~= cs.skip(idx + 1));
        let ghost pre = lines_view(lines@);
        assert(rest[0] == node.children@[idx as int]@);
        assert((rest.len() == 1) == (idx == last_index));
        write_child(&node.children[idx], &empty, idx == last_index, attributes, &mut lines);
        assert(lines_view(lines@) + child_lines(cs.skip(idx + 1), empty@, attributes.set, add)
            =~= pre + child_lines(rest, empty@, attributes.set, add));
        idx = idx + 1;
    }
    assert(cs.skip(n as int).len() == 0);
    assert(lines_view(lines@) + child_lines(cs.skip(n as int), empty@, attributes.set, add)
        =~= lines_view(lines@));
    let ghost all = lines_view(lines@);
    let mut out = String::new();
    let mut i: usize = 0;
    while i < lines.len()
        invariant
            i <= lines.len(),
            all == lines_view(lines@),
            out@ == join_lines(all.take(i as int)),
        decreases lines.len() - i,
    {
        if i > 0 {
            push_char(&mut out, '\n');
        }
        push_str(&mut out, lines[i].as_str());
        assert(all.take(i + 1).drop_last() =~= all.take(i as int));
        if i == 0 {
            assert(all.take(1)[0] == all[0]);
        }
        assert(all[i as int] == lines@[i as int]@);
        assert(out@ =~= join_lines(all.take(i + 1)));
        i = i + 1;
    }
    assert(all.take(lines.len() as int) =~= all);
    out
}

/// Removing case-duplicates drops no key: every key is among the kept ones up to
/// ASCII case.
pub proof fn law_dedupe_keeps_every_key(s: Seq<Seq<char>>, i: int)
    requires
        0 <= i < s.len(),
    ensures
        crate::attributes::has_ci(dedupe_ci(s), s[i]),
    decreases s.len(),
{
    let prev = dedupe_ci(s.drop_last());
    if i == s.len() - 1 {
        if !crate::attributes::has_ci(prev, s.last()) {
            let r = prev.push(s.last());
            assert(r[prev.len() as int] == s[i]);
            assert(eq_ignore_case(r[prev.len() as int], s[i]));
        }
    } else {
        assert(s.drop_last()[i] == s[i]);
        law_dedupe_keeps_every_key(s.drop_last(), i);
        let j = choose|j: int| 0 <= j < prev.len() && eq_ignore_case(#[trigger] prev[j], s[i]);
        if !crate::attributes::has_ci(prev, s.last()) {
            assert(prev.push(s.last())[j] == prev[j]);
        }
    }
}

/// The lines of `a + b`, joined, are the lines of `a` joined, a line break, and the
/// lines of `b` joined.
pub proof fn law_join_lines_concatenates(a: Seq<Seq<char>>, b: Seq<Seq<char>>)
    requires
        a.len() > 0,
        b.len() > 0,
    ensures
        join_lines(a + b) == join_lines(a) + seq!['\n'] + join_lines(b),
    decreases b.len(),
{
    let ab = a + b;
    assert(ab.drop_last() =~= a + b.drop_last());
    assert(ab.last() == b.last());
    if b.len() == 1 {
        assert(b.drop_last() =~= Seq::<Seq<char>>::empty());
        assert(a + b.drop_last() =~= a);
        assert(join_lines(b) == b[0]);
    } else {
        law_join_lines_concatenates(a, b.drop_last());
        assert(join_lines(ab) =~= join_lines(a) + seq!['\n'] + join_lines(b));
    }
}

/// The `key=value` pairs of `a + b` are those of `a`, `, `, and those of `b`.
pub proof fn law_pairs_text_concatenates(a: Seq<(Seq<char>, JsonView)>, b: Seq<(Seq<char>, JsonView)>)
    requires
        a.len() > 0,
        b.len() > 0,
    ensures
        pairs_text(a + b) == pairs_text(a) + seq![',', ' '] + pairs_text(b),
    decreases b.len(),
{
    let ab = a + b;
    assert(ab.drop_last() =~= a + b.drop_last());
    assert(ab.last() == b.last());
    if b.len() == 1 {
        assert(a + b.drop_last() =~= a);
        assert(pairs_text(ab) =~= pairs_text(a) + seq![',', ' '] + pairs_text(b));
    } else {
        law_pairs_text_concatenates(a, b.drop_last());
        assert(pairs_text(ab) =~= pairs_text(a) + seq![',', ' '] + pairs_text(b));
    }
}

} // verus!
