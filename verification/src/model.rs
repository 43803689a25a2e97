//! The UI tree: nodes with a name, an optional role, JSON attribute values kept in key
//! order, and child nodes.
use vstd::prelude::*;

use crate::keyed::{find_entry, insert_sorted, keys_sorted, lookup, pairs_view};
use crate::text::{chars_of, push_char, push_str};

verus! {

broadcast use vstd::std_specs::vec::group_vec_axioms;

// ---------------------------------------------------------------------------
// JSON values
// ---------------------------------------------------------------------------

/// A JSON value as it is stored for an attribute. A number is held as the text that
/// a JSON serializer prints for it.
#[derive(Debug)]
pub enum JsonValue {
    Null,
    Bool(bool),
    Number(String),
    Text(String),
    Array(Vec<JsonValue>),
    Object(Vec<(String, JsonValue)>),
}

/// The mathematical value of a `JsonValue`.
pub enum JsonView {
    Null,
    Bool(bool),
    Number(Seq<char>),
    Text(Seq<char>),
    Array(Seq<JsonView>),
    Object(Seq<(Seq<char>, JsonView)>),
}

pub open spec fn json_view(v: JsonValue) -> JsonView
    decreases v, 2int,
{
    match v {
        JsonValue::Null => JsonView::Null,
        JsonValue::Bool(b) => JsonView::Bool(b),
        JsonValue::Number(t) => JsonView::Number(t@),
        JsonValue::Text(s) => JsonView::Text(s@),
        JsonValue::Array(items) => JsonView::Array(json_views(items@)),
        JsonValue::Object(entries) => JsonView::Object(json_entry_views(entries@)),
    }
}

pub open spec fn json_views(s: Seq<JsonValue>) -> Seq<JsonView>
    decreases s, 1int,
{
    if s.len() == 0 {
        Seq::empty()
    } else {
        json_views(s.drop_last()).push(json_view(s.last()))
    }
}

pub open spec fn json_entry_views(s: Seq<(String, JsonValue)>) -> Seq<(Seq<char>, JsonView)>
    decreases s, 1int,
{
    if s.len() == 0 {
        Seq::empty()
    } else {
        json_entry_views(s.drop_last()).push((s.last().0@, json_view(s.last().1)))
    }
}

impl View for JsonValue {
    type V = JsonView;

    open spec fn view(&self) -> JsonView {
        json_view(*self)
    }
}

pub proof fn lemma_json_views(s: Seq<JsonValue>)
    ensures
        json_views(s).len() == s.len(),
        forall|i: int| 0 <= i < s.len() ==> #[trigger] json_views(s)[i] == json_view(s[i]),
    decreases s.len(),
{
    if s.len() > 0 {
        lemma_json_views(s.drop_last());
    }
}

pub proof fn lemma_json_entry_views(s: Seq<(String, JsonValue)>)
    ensures
        json_entry_views(s).len() == s.len(),
        forall|i: int|
            0 <= i < s.len() ==> #[trigger] json_entry_views(s)[i] == (s[i].0@, json_view(s[i].1)),
    decreases s.len(),
{
    if s.len() > 0 {
        lemma_json_entry_views(s.drop_last());
    }
}

/// The escape that JSON text uses for one character of a string.
pub open spec fn escape_char(c: char) -> Seq<char> {
    if c == '"' {
        seq!['\\', '"']
    } else if c == '\\' {
        seq!['\\', '\\']
    } else if c == '\n' {
        seq!['\\', 'n']
    } else if c == '\r' {
        seq!['\\', 'r']
    } else if c == '\t' {
        seq!['\\', 't']
    } else if c == '\u{8}' {
        seq!['\\', 'b']
    } else if c == '\u{c}' {
        seq!['\\', 'f']
    } else if (c as u32) < 0x20 {
        seq!['\\', 'u', '0', '0', hex_digit((c as u32) / 16), hex_digit((c as u32) % 16)]
    } else {
        seq![c]
    }
}

/// Lower-case hexadecimal digit of a value below 16.
pub open spec fn hex_digit(d: u32) -> char {
    if d < 10 {
        (('0' as u32) + d) as char
    } else {
        (('a' as u32) + d - 10) as char
    }
}

pub open spec fn escape_seq(s: Seq<char>) -> Seq<char>
    decreases s.len(),
{
    if s.len() == 0 {
        Seq::empty()
    } else {
        escape_seq(s.drop_last()) + escape_char(s.last())
    }
}

/// A JSON string literal for `s`.
pub open spec fn quoted(s: Seq<char>) -> Seq<char> {
    seq!['"'] + escape_seq(s) + seq!['"']
}

/// Compact JSON text of a value, as a JSON serializer writes it: no whitespace,
/// members in the order held.
pub open spec fn json_text(v: JsonView) -> Seq<char>
    decreases v, 2int,
{
    match v {
        JsonView::Null => seq!['n', 'u', 'l', 'l'],
        JsonView::Bool(b) => if b {
            seq!['t', 'r', 'u', 'e']
        } else {
            seq!['f', 'a', 'l', 's', 'e']
        },
        JsonView::Number(t) => t,
        JsonView::Text(s) => quoted(s),
        JsonView::Array(items) => seq!['['] + items_text(items) + seq![']'],
        JsonView::Object(entries) => seq!['{'] + entries_text(entries) + seq!['}'],
    }
}

pub open spec fn items_text(s: Seq<JsonView>) -> Seq<char>
    decreases s, 1int,
{
    if s.len() == 0 {
        Seq::empty()
    } else if s.len() == 1 {
        json_text(s[0])
    } else {
        items_text(s.drop_last()) + seq![','] + json_text(s.last())
    }
}

pub open spec fn entries_text(s: Seq<(Seq<char>, JsonView)>) -> Seq<char>
    decreases s, 1int,
{
    if s.len() == 0 {
        Seq::empty()
    } else if s.len() == 1 {
        quoted(s[0].0) + seq![':'] + json_text(s[0].1)
    } else {
        entries_text(s.drop_last()) + seq![','] + quoted(s.last().0) + seq![':'] + json_text(
            s.last().1,
        )
    }
}

/// The plain rendering of a value: strings without quotes, everything else as JSON text.
pub open spec fn plain_text(v: JsonView) -> Seq<char> {
    match v {
        JsonView::Text(s) => s,
        _ => json_text(v),
    }
}

fn push_lit(out: &mut String, lit: &str)
    ensures
        final(out)@ == old(out)@ + lit@,
{
    push_str(out, lit);
}

fn hex_digit_exec(d: u32) -> (c: char)
    requires
        d < 16,
    ensures
        c == hex_digit(d),
{
    if d < 10 {
        ((('0' as u8) as u32 + d) as u8) as char
    } else {
        ((('a' as u8) as u32 + d - 10) as u8) as char
    }
}

fn write_escaped_char(out: &mut String, c: char)
    ensures
        final(out)@ == old(out)@ + escape_char(c),
{
    if c == '"' {
        push_char(out, '\\');
        push_char(out, '"');
    } else if c == '\\' {
        push_char(out, '\\');
        push_char(out, '\\');
    } else if c == '\n' {
        push_char(out, '\\');
        push_char(out, 'n');
    } else if c == '\r' {
        push_char(out, '\\');
        push_char(out, 'r');
    } else if c == '\t' {
        push_char(out, '\\');
        push_char(out, 't');
    } else if c == '\u{8}' {
        push_char(out, '\\');
        push_char(out, 'b');
    } else if c == '\u{c}' {
        push_char(out, '\\');
        push_char(out, 'f');
    } else if (c as u32) < 0x20 {
        push_char(out, '\\');
        push_char(out, 'u');
        push_char(out, '0');
        push_char(out, '0');
        push_char(out, hex_digit_exec((c as u32) / 16));
        push_char(out, hex_digit_exec((c as u32) % 16));
    } else {
        push_char(out, c);
    }
    assert(final(out)@ =~= old(out)@ + escape_char(c));
}

fn write_quoted(out: &mut String, s: &str)
    ensures
        final(out)@ == old(out)@ + quoted(s@),
{
    let cs = chars_of(s);
    push_char(out, '"');
    let ghost start = out@;
    let mut i: usize = 0;
    while i < cs.len()
        invariant
            i <= cs.len(),
            cs@ == s@,
            out@ == start + escape_seq(cs@.take(i as int)),
        decreases cs.len() - i,
    {
        write_escaped_char(out, cs[i]);
        assert(cs@.take(i + 1).drop_last() == cs@.take(i as int));
        i = i + 1;
    }
    assert(cs@.take(cs.len() as int) == cs@);
    push_char(out, '"');
    assert(out@ =~= old(out)@ + quoted(s@));
}

/// Appends the compact JSON text of `v`.
#[verifier::loop_isolation(false)]
#[verifier::rlimit(40)]
pub fn write_json(out: &mut String, v: &JsonValue)
    ensures
        final(out)@ == old(out)@ + json_text(v@),
    decreases v,
{
    match v {
        JsonValue::Null => {
            proof {
                reveal_strlit("null");
            }
            push_lit(out, "null")
        },
        JsonValue::Bool(b) => {
            proof {
                reveal_strlit("true");
                reveal_strlit("false");
            }
            if *b {
                push_lit(out, "true")
            } else {
                push_lit(out, "false")
            }
        },
        JsonValue::Number(t) => push_str(out, t.as_str()),
        JsonValue::Text(s) => write_quoted(out, s.as_str()),
        JsonValue::Array(items) => {
            push_char(out, '[');
            let ghost start = out@;
            proof {
                lemma_json_views(items@);
            }
            let mut i: usize = 0;
            while i < items.len()
                invariant
                    i <= items.len(),
                    out@ == start + items_text(json_views(items@).take(i as int)),
                    json_views(items@).len() == items@.len(),
                    forall|k: int|
                        0 <= k < items@.len() ==> #[trigger] json_views(items@)[k] == json_view(
                            items@[k],
                        ),
                decreases items.len() - i,
            {
                let ghost prev = out@;
                let ghost vs = json_views(items@);
                if i > 0 {
                    push_char(out, ',');
                }
                proof {
                    assert(decreases_to!(*items => items[i as int]));
                    assert(decreases_to!(*v => v->Array_0));
                }
                write_json(out, &items[i]);
                proof {
                    assert(vs.take(i + 1).drop_last() == vs.take(i as int));
                    if i == 0 {
                        assert(vs.take(1)[0] == vs[0]);
                    }
                }
                i = i + 1;
            }
            assert(json_views(items@).take(items.len() as int) == json_views(items@));
            push_char(out, ']');
            assert(out@ =~= old(out)@ + json_text(v@));
        },
        JsonValue::Object(entries) => {
            push_char(out, '{');
            let ghost start = out@;
            proof {
                lemma_json_entry_views(entries@);
            }
            let mut i: usize = 0;
            while i < entries.len()
                invariant
                    i <= entries.len(),
                    out@ == start + entries_text(json_entry_views(entries@).take(i as int)),
                    json_entry_views(entries@).len() == entries@.len(),
                    forall|k: int|
                        0 <= k < entries@.len() ==> #[trigger] json_entry_views(entries@)[k] == (
                        entries@[k].0@,
                        json_view(entries@[k].1),
                    ),
                decreases entries.len() - i,
            {
                let ghost vs = json_entry_views(entries@);
                if i > 0 {
                    push_char(out, ',');
                }
                write_quoted(out, entries[i].0.as_str());
                push_char(out, ':');
                proof {
                    assert(decreases_to!(*entries => entries[i as int]));
                    assert(decreases_to!(*v => v->Object_0));
                    assert(decreases_to!(entries[i as int] => entries[i as int].1));
                }
                write_json(out, &entries[i].1);
                proof {
                    assert(vs.take(i + 1).drop_last() == vs.take(i as int));
                    if i == 0 {
                        assert(vs.take(1)[0] == vs[0]);
                    }
                }
                i = i + 1;
            }
            assert(json_entry_views(entries@).take(entries.len() as int) == json_entry_views(
                entries@,
            ));
            push_char(out, '}');
            assert(out@ =~= old(out)@ + json_text(v@));
        },
    }
}

/// The compact JSON text of a value.
pub fn json_to_text(v: &JsonValue) -> (r: String)
    ensures
        r@ == json_text(v@),
{
    let mut out = String::new();
    write_json(&mut out, v);
    out
}

/// Renders an attribute value for display and matching: strings as they are, every
/// other value as its JSON text.
pub fn json_value_to_string(value: &JsonValue) -> (r: String)
    ensures
        r@ == plain_text(value@),
{
    match value {
        JsonValue::Text(s) => s.clone(),
        _ => json_to_text(value),
    }
}

/// A copy of a value.
#[verifier::loop_isolation(false)]
pub fn clone_json(v: &JsonValue) -> (r: JsonValue)
    ensures
        r@ == v@,
    decreases v,
{
    match v {
        JsonValue::Null => JsonValue::Null,
        JsonValue::Bool(b) => JsonValue::Bool(*b),
        JsonValue::Number(t) => JsonValue::Number(t.clone()),
        JsonValue::Text(s) => JsonValue::Text(s.clone()),
        JsonValue::Array(items) => {
            let mut out: Vec<JsonValue> = Vec::new();
            let mut i: usize = 0;
            proof {
                lemma_json_views(items@);
            }
            while i < items.len()
                invariant
                    i <= items.len(),
                    json_views(out@) == json_views(items@).take(i as int),
                    json_views(items@).len() == items@.len(),
                    forall|k: int|
                        0 <= k < items@.len() ==> #[trigger] json_views(items@)[k] == json_view(
                            items@[k],
                        ),
                decreases items.len() - i,
            {
                proof {
                    assert(decreases_to!(*items => items[i as int]));
                    assert(decreases_to!(*v => v->Array_0));
                }
                let c = clone_json(&items[i]);
                let ghost before = out@;
                out.push(c);
                proof {
                    assert(out@.drop_last() == before);
                    assert(json_views(items@).take(i + 1) =~= json_views(items@).take(
                        i as int,
                    ).push(json_view(items@[i as int])));
                }
                i = i + 1;
            }
            assert(json_views(items@).take(items.len() as int) == json_views(items@));
            JsonValue::Array(out)
        },
        JsonValue::Object(entries) => {
            let mut out: Vec<(String, JsonValue)> = Vec::new();
            let mut i: usize = 0;
            proof {
                lemma_json_entry_views(entries@);
            }
            while i < entries.len()
                invariant
                    i <= entries.len(),
                    json_entry_views(out@) == json_entry_views(entries@).take(i as int),
                    json_entry_views(entries@).len() == entries@.len(),
                    forall|k: int|
                        0 <= k < entries@.len() ==> #[trigger] json_entry_views(entries@)[k] == (
                        entries@[k].0@,
                        json_view(entries@[k].1),
                    ),
                decreases entries.len() - i,
            {
                proof {
                    assert(decreases_to!(*entries => entries[i as int]));
                    assert(decreases_to!(*v => v->Object_0));
                    assert(decreases_to!(entries[i as int] => entries[i as int].1));
                }
                let c = clone_json(&entries[i].1);
                let k = entries[i].0.clone();
                let ghost before = out@;
                out.push((k, c));
                proof {
                    assert(out@.drop_last() == before);
                    assert(json_entry_views(entries@).take(i + 1) =~= json_entry_views(
                        entries@,
                    ).take(i as int).push((entries@[i as int].0@, json_view(entries@[i as int].1))));
                }
                i = i + 1;
            }
            assert(json_entry_views(entries@).take(entries.len() as int) == json_entry_views(
                entries@,
            ));
            JsonValue::Object(out)
        },
    }
}

// ---------------------------------------------------------------------------
// UI nodes
// ---------------------------------------------------------------------------

/// One element of a UI tree. `attributes` holds its entries in ascending key order
/// with no key twice (see `UiNode::attributes_sorted`).
#[derive(Debug)]
pub struct UiNode {
    pub name: String,
    pub role: Option<String>,
    pub attributes: Vec<(String, JsonValue)>,
    pub children: Vec<UiNode>,
}

/// The mathematical value of a `UiNode`.
pub struct NodeView {
    pub name: Seq<char>,
    pub role: Option<Seq<char>>,
    pub attributes: Seq<(Seq<char>, JsonView)>,
    pub children: Seq<NodeView>,
}

pub open spec fn opt_view(o: Option<String>) -> Option<Seq<char>> {
    match o {
        Some(s) => Some(s@),
        None => None,
    }
}

pub open spec fn view_node(n: UiNode) -> NodeView
    decreases n, 1int,
{
    NodeView {
        name: n.name@,
        role: opt_view(n.role),
        attributes: pairs_view(n.attributes@),
        children: view_nodes(n.children@),
    }
}

pub open spec fn view_nodes(s: Seq<UiNode>) -> Seq<NodeView>
    decreases s, 0int,
{
    if s.len() == 0 {
        Seq::empty()
    } else {
        view_nodes(s.drop_last()).push(view_node(s.last()))
    }
}

impl View for UiNode {
    type V = NodeView;

    open spec fn view(&self) -> NodeView {
        view_node(*self)
    }
}

pub proof fn lemma_view_nodes(s: Seq<UiNode>)
    ensures
        view_nodes(s).len() == s.len(),
        forall|i: int| 0 <= i < s.len() ==> #[trigger] view_nodes(s)[i] == view_node(s[i]),
    decreases s.len(),
{
    if s.len() > 0 {
        lemma_view_nodes(s.drop_last());
    }
}

pub proof fn lemma_view_nodes_push(s: Seq<UiNode>, n: UiNode)
    ensures
        view_nodes(s.push(n)) == view_nodes(s).push(view_node(n)),
{
    assert(s.push(n).drop_last() == s);
}

/// Height of a tree: 0 for a leaf.
pub open spec fn height(n: NodeView) -> nat
    decreases n, 1int,
{
    let h = max_height(n.children);
    if n.children.len() == 0 {
        0
    } else {
        h + 1
    }
}

/// The greatest height among a sequence of trees, 0 for none.
pub open spec fn max_height(s: Seq<NodeView>) -> nat
    decreases s, 0int,
{
    if s.len() == 0 {
        0
    } else {
        let a = max_height(s.drop_last());
        let b = height(s.last());
        if a >= b {
            a
        } else {
            b
        }
    }
}

/// Copies the attribute entries of a node.
pub fn clone_attributes(attrs: &Vec<(String, JsonValue)>) -> (r: Vec<(String, JsonValue)>)
    ensures
        pairs_view(r@) == pairs_view(attrs@),
{
    let mut out: Vec<(String, JsonValue)> = Vec::new();
    let mut i: usize = 0;
    while i < attrs.len()
        invariant
            i <= attrs.len(),
            out.len() == i,
            pairs_view(out@) == pairs_view(attrs@).take(i as int),
        decreases attrs.len() - i,
    {
        let k = attrs[i].0.clone();
        let v = clone_json(&attrs[i].1);
        let ghost kv = (k@, v@);
        let ghost prev = out@;
        out.push((k, v));
        assert(out@ == prev.push(out@.last()));
        assert(pairs_view(out@)[i as int] == kv);
        assert(pairs_view(attrs@)[i as int] == kv);
        assert(pairs_view(out@) =~= pairs_view(attrs@).take(i + 1));
        i = i + 1;
    }
    assert(pairs_view(attrs@).take(attrs.len() as int) =~= pairs_view(attrs@));
    out
}

pub fn clone_opt_string(o: &Option<String>) -> (r: Option<String>)
    ensures
        opt_view(r) == opt_view(*o),
        r == *o,
{
    match o {
        Some(s) => Some(s.clone()),
        None => None,
    }
}

impl UiNode {
    /// Keys of the attributes ascend, so each key is held once.
    pub open spec fn attributes_sorted(&self) -> bool {
        keys_sorted(self@.attributes)
    }

    /// The value stored under exactly `key`.
    pub fn attribute_value(&self, key: &str) -> (r: Option<&JsonValue>)
        ensures
            match r {
                Some(v) => lookup(self@.attributes, key@) == Some(v@),
                None => lookup(self@.attributes, key@) is None,
            },
    {
        find_entry(&self.attributes, key)
    }

    /// Stores `value` under `key`, replacing an earlier value, keeping keys ascending.
    pub fn insert_attribute(&mut self, key: String, value: JsonValue)
        requires
            old(self).attributes_sorted(),
        ensures
            final(self).attributes_sorted(),
            final(self)@.name == old(self)@.name,
            final(self)@.role == old(self)@.role,
            final(self)@.children == old(self)@.children,
            forall|k: Seq<char>|
                #[trigger] lookup(final(self)@.attributes, k) == if k == key@ {
                    Some(value@)
                } else {
                    lookup(old(self)@.attributes, k)
                },
    {
        insert_sorted(&mut self.attributes, key, value);
    }

    /// A deep copy of the node and its subtree.
    #[verifier::loop_isolation(false)]
    pub fn clone_node(&self) -> (r: UiNode)
        ensures
            r@ == self@,
        decreases self,
    {
        let mut children: Vec<UiNode> = Vec::new();
        let mut i: usize = 0;
        proof {
            lemma_view_nodes(self.children@);
        }
        while i < self.children.len()
            invariant
                i <= self.children.len(),
                view_nodes(children@) == view_nodes(self.children@).take(i as int),
            decreases self.children.len() - i,
        {
            proof {
                assert(decreases_to!(self.children => self.children[i as int]));
            }
            let c = self.children[i].clone_node();
            proof {
                lemma_view_nodes_push(children@, c);
            }
            children.push(c);
            assert(view_nodes(children@) =~= view_nodes(self.children@).take(i + 1));
            i = i + 1;
        }
        assert(view_nodes(self.children@).take(self.children.len() as int) =~= view_nodes(
            self.children@,
        ));
        UiNode {
            name: self.name.clone(),
            role: clone_opt_string(&self.role),
            attributes: clone_attributes(&self.attributes),
            children,
        }
    }
}

/// Escaping works character by character: the escape of `a + b` is the escape of `a`
/// followed by the escape of `b`.
pub proof fn law_escape_concatenates(a: Seq<char>, b: Seq<char>)
    ensures
        escape_seq(a + b) == escape_seq(a) + escape_seq(b),
    decreases b.len(),
{
    if b.len() == 0 {
        assert(a + b =~= a);
        assert(escape_seq(a) + escape_seq(b) =~= escape_seq(a));
    } else {
        law_escape_concatenates(a, b.drop_last());
        assert((a + b).drop_last() =~= a + b.drop_last());
        assert((a + b).last() == b.last());
        assert(escape_seq(a + b) =~= escape_seq(a) + escape_seq(b));
    }
}

/// The items of `a + b` are written as those of `a`, a comma, and those of `b`.
pub proof fn law_items_text_concatenates(a: Seq<JsonView>, b: Seq<JsonView>)
    requires
        a.len() > 0,
        b.len() > 0,
    ensures
        items_text(a + b) == items_text(a) + seq![','] + items_text(b),
    decreases b.len(),
{
    let ab = a + b;
    assert(ab.drop_last() =~= a + b.drop_last());
    assert(ab.last() == b.last());
    if b.len() == 1 {
        assert(a + b.drop_last() =~= a);
        assert(items_text(ab) =~= items_text(a) + seq![','] + items_text(b));
    } else {
        law_items_text_concatenates(a, b.drop_last());
        assert(items_text(ab) =~= items_text(a) + seq![','] + items_text(b));
    }
}

/// The entries of `a + b` are written as those of `a`, a comma, and those of `b`.
pub proof fn law_entries_text_concatenates(
    a: Seq<(Seq<char>, JsonView)>,
    b: Seq<(Seq<char>, JsonView)>,
)
    requires
        a.len() > 0,
        b.len() > 0,
    ensures
        entries_text(a + b) == entries_text(a) + seq![','] + entries_text(b),
    decreases b.len(),
{
    let ab = a + b;
    assert(ab.drop_last() =~= a + b.drop_last());
    assert(ab.last() == b.last());
    if b.len() == 1 {
        assert(a + b.drop_last() =~= a);
        assert(entries_text(ab) =~= entries_text(a) + seq![','] + entries_text(b));
    } else {
        law_entries_text_concatenates(a, b.drop_last());
        assert(entries_text(ab) =~= entries_text(a) + seq![','] + entries_text(b));
    }
}

} // verus!
