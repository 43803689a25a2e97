//! The decisions of a Windows UI Automation capture: which element to start from,
//! which elements match the selectors, and how an element becomes a tree node. The
//! automation calls themselves are made by the caller, who reports what they read.
use std::collections::VecDeque;
use vstd::prelude::*;

use crate::config::Win32Config;
use crate::keyed::lookup;
use crate::model::{
    clone_opt_string, json_entry_views, lemma_json_entry_views, opt_view, view_nodes, JsonValue,
    JsonView, UiNode,
};
use crate::text::{contains, contains_str, lowercase, push_char, push_str, to_lowercase};

verus! {

// ---------------------------------------------------------------------------
// Decimal numbers
// ---------------------------------------------------------------------------

/// The character of a decimal digit.
pub open spec fn digit_char(d: nat) -> char {
    if d == 0 {
        '0'
    } else if d == 1 {
        '1'
    } else if d == 2 {
        '2'
    } else if d == 3 {
        '3'
    } else if d == 4 {
        '4'
    } else if d == 5 {
        '5'
    } else if d == 6 {
        '6'
    } else if d == 7 {
        '7'
    } else if d == 8 {
        '8'
    } else {
        '9'
    }
}

/// The decimal digits of `n`, most significant first, without leading zeros.
pub open spec fn decimal(n: nat) -> Seq<char>
    decreases n,
{
    if n < 10 {
        seq![digit_char(n)]
    } else {
        decimal(n / 10).push(digit_char(n % 10))
    }
}

/// The decimal text of an integer, with a leading `-` when it is negative.
pub open spec fn signed_decimal(v: int) -> Seq<char> {
    if v < 0 {
        seq!['-'] + decimal((-v) as nat)
    } else {
        decimal(v as nat)
    }
}

fn digit(d: u64) -> (c: char)
    requires
        d < 10,
    ensures
        c == digit_char(d as nat),
{
    if d == 0 {
        '0'
    } else if d == 1 {
        '1'
    } else if d == 2 {
        '2'
    } else if d == 3 {
        '3'
    } else if d == 4 {
        '4'
    } else if d == 5 {
        '5'
    } else if d == 6 {
        '6'
    } else if d == 7 {
        '7'
    } else if d == 8 {
        '8'
    } else {
        '9'
    }
}

/// Appends the decimal digits of `n`.
pub fn write_decimal(out: &mut String, n: u64)
    ensures
        final(out)@ == old(out)@ + decimal(n as nat),
    decreases n,
{
    if n >= 10 {
        write_decimal(out, n / 10);
    }
    push_char(out, digit(n % 10));
    assert(out@ =~= old(out)@ + decimal(n as nat));
}

/// Appends the decimal text of `v`, with a leading `-` when it is negative.
pub fn write_signed(out: &mut String, v: i64)
    ensures
        final(out)@ == old(out)@ + signed_decimal(v as int),
{
    if v < 0 {
        push_char(out, '-');
        let magnitude: u64 = if v == i64::MIN {
            9223372036854775808u64
        } else {
            (-v) as u64
        };
        write_decimal(out, magnitude);
        assert(out@ =~= old(out)@ + signed_decimal(v as int));
    } else {
        write_decimal(out, v as u64);
    }
}

// ---------------------------------------------------------------------------
// Selectors
// ---------------------------------------------------------------------------

/// The selectors as an error message shows them.
pub open spec fn selectors_text(process_id: Option<u32>, title: Option<Seq<char>>) -> Seq<char> {
    let pid_part = match process_id {
        Some(p) => "process_id="@ + decimal(p as nat),
        None => Seq::empty(),
    };
    let title_part = match title {
        Some(t) => "window_title contains '"@ + t + "'"@,
        None => Seq::empty(),
    };
    if process_id is None && title is None {
        "<none>"@
    } else if process_id is Some && title is Some {
        pid_part + ", "@ + title_part
    } else {
        pid_part + title_part
    }
}

/// Describes the selectors of a configuration, such as
/// `process_id=42, window_title contains 'calc'`, or `<none>` without any.
pub fn describe_selectors(options: &Win32Config) -> (r: String)
    ensures
        r@ == selectors_text(options.process_id, opt_view(options.window_title)),
{
    let mut out = String::new();
    if let Some(pid) = options.process_id {
        push_str(&mut out, "process_id=");
        write_decimal(&mut out, pid as u64);
    }
    if let Some(title) = &options.window_title {
        if options.process_id.is_some() {
            push_str(&mut out, ", ");
        }
        push_str(&mut out, "window_title contains '");
        push_str(&mut out, title.as_str());
        push_str(&mut out, "'");
    }
    if options.process_id.is_none() && options.window_title.is_none() {
        push_str(&mut out, "<none>");
    }
    assert(out@ =~= selectors_text(options.process_id, opt_view(options.window_title)));
    out
}

/// What was read of an element to test it against the selectors; `None` where the
/// read failed.
pub struct ElementProbe {
    pub process_id: Option<u32>,
    pub name: Option<String>,
}

/// An element matches when its process id equals the wanted one (if any) and its
/// lower-cased name contains the wanted title (if any); a failed read never matches.
pub open spec fn selectors_match(probe: ElementProbe, options: Win32Config) -> bool {
    &&& (options.process_id matches Some(p) ==> probe.process_id == Some(p))
    &&& (options.window_title matches Some(t) ==> probe.name matches Some(n) && contains(
        lowercase(n@),
        t@,
    ))
}

/// Whether a probed element matches the selectors.
pub fn matches_selectors(probe: &ElementProbe, options: &Win32Config) -> (r: bool)
    ensures
        r == selectors_match(*probe, *options),
{
    if let Some(pid) = options.process_id {
        match probe.process_id {
            Some(actual) => {
                if actual != pid {
                    return false;
                }
            },
            None => {
                return false;
            },
        }
    }
    if let Some(target) = &options.window_title {
        match &probe.name {
            None => {
                return false;
            },
            Some(name) => {
                let lowered = to_lowercase(name.as_str());
                if !contains_str(lowered.as_str(), target.as_str()) {
                    return false;
                }
            },
        }
    }
    true
}

// ---------------------------------------------------------------------------
// Element nodes
// ---------------------------------------------------------------------------

/// A native window handle as read: whether it is invalid, and its debug rendering.
pub struct WindowHandle {
    pub invalid: bool,
    pub text: String,
}

/// The bounding rectangle of an element, in screen pixels.
#[derive(Clone, Copy, Debug)]
pub struct BoundingBox {
    pub left: i32,
    pub top: i32,
    pub right: i32,
    pub bottom: i32,
    pub width: i32,
    pub height: i32,
}

/// What was read of an element to turn it into a node; `None` where the read failed.
/// `control_type` is the debug rendering of the control type.
pub struct ElementProps {
    pub name: Option<String>,
    pub localized_control_type: Option<String>,
    pub control_type: Option<String>,
    pub automation_id: Option<String>,
    pub class_name: Option<String>,
    pub framework_id: Option<String>,
    pub help_text: Option<String>,
    pub process_id: Option<u32>,
    pub native_window_handle: Option<WindowHandle>,
    pub bounding_rectangle: Option<BoundingBox>,
    pub is_enabled: Option<bool>,
    pub is_offscreen: Option<bool>,
}

/// A JSON number holding an integer.
pub open spec fn number_json(v: int) -> JsonView {
    JsonView::Number(signed_decimal(v))
}

/// The JSON object of a bounding rectangle, keys in ascending order.
pub open spec fn box_json(b: BoundingBox) -> JsonView {
    JsonView::Object(
        seq![
            ("bottom"@, number_json(b.bottom as int)),
            ("height"@, number_json(b.height as int)),
            ("left"@, number_json(b.left as int)),
            ("right"@, number_json(b.right as int)),
            ("top"@, number_json(b.top as int)),
            ("width"@, number_json(b.width as int)),
        ],
    )
}

/// A text that was read and is not empty.
pub open spec fn present_text(s: Option<String>) -> bool {
    s matches Some(t) && t@.len() > 0
}

/// A window handle that was read and is valid.
pub open spec fn valid_handle(h: Option<WindowHandle>) -> bool {
    h matches Some(w) && !w.invalid
}

/// The attribute value stored under `k` for an element: its control type, automation
/// id, class name, framework id and help text when read and not empty (the control
/// type even when empty), its process id, a valid native window handle, its bounding
/// rectangle, and whether it is enabled and off screen, each when read.
pub open spec fn element_attr(p: ElementProps, k: Seq<char>) -> Option<JsonView> {
    if k == "IsOffscreen"@ && p.is_offscreen is Some {
        Some(JsonView::Bool(p.is_offscreen->0))
    } else if k == "IsEnabled"@ && p.is_enabled is Some {
        Some(JsonView::Bool(p.is_enabled->0))
    } else if k == "BoundingRectangle"@ && p.bounding_rectangle is Some {
        Some(box_json(p.bounding_rectangle->0))
    } else if k == "NativeWindowHandle"@ && valid_handle(p.native_window_handle) {
        Some(JsonView::Text(p.native_window_handle->0.text@))
    } else if k == "ProcessId"@ && p.process_id is Some {
        Some(number_json(p.process_id->0 as int))
    } else if k == "HelpText"@ && present_text(p.help_text) {
        Some(JsonView::Text(p.help_text->0@))
    } else if k == "FrameworkId"@ && present_text(p.framework_id) {
        Some(JsonView::Text(p.framework_id->0@))
    } else if k == "ClassName"@ && present_text(p.class_name) {
        Some(JsonView::Text(p.class_name->0@))
    } else if k == "AutomationId"@ && present_text(p.automation_id) {
        Some(JsonView::Text(p.automation_id->0@))
    } else if k == "ControlType"@ && p.control_type is Some {
        Some(JsonView::Text(p.control_type->0@))
    } else {
        None
    }
}

/// The name of an element's node: the name read, or empty.
pub open spec fn element_name(p: ElementProps) -> Seq<char> {
    match p.name {
        Some(n) => n@,
        None => Seq::empty(),
    }
}

/// The role of an element's node: its localized control type when read and not empty.
pub open spec fn element_role(p: ElementProps) -> Option<Seq<char>> {
    if present_text(p.localized_control_type) {
        Some(p.localized_control_type->0@)
    } else {
        None
    }
}

fn number_value(v: i64) -> (r: JsonValue)
    ensures
        r@ == number_json(v as int),
{
    let mut t = String::new();
    write_signed(&mut t, v);
    JsonValue::Number(t)
}

fn key(k: &str) -> (r: String)
    ensures
        r@ == k@,
{
    String::from_str(k)
}

fn box_value(b: &BoundingBox) -> (r: JsonValue)
    ensures
        r@ == box_json(*b),
{
    let mut entries: Vec<(String, JsonValue)> = Vec::new();
    entries.push((key("bottom"), number_value(b.bottom as i64)));
    entries.push((key("height"), number_value(b.height as i64)));
    entries.push((key("left"), number_value(b.left as i64)));
    entries.push((key("right"), number_value(b.right as i64)));
    entries.push((key("top"), number_value(b.top as i64)));
    entries.push((key("width"), number_value(b.width as i64)));
    proof {
        lemma_json_entry_views(entries@);
    }
    let r = JsonValue::Object(entries);
    assert(json_entry_views(entries@) =~= box_json(*b)->Object_0);
    r
}

fn nonempty(s: &Option<String>) -> (r: bool)
    ensures
        r == present_text(*s),
{
    match s {
        Some(t) => !t.as_str().is_empty(),
        None => false,
    }
}

/// Stores `value` under `k` when there is one.
fn put(node: &mut UiNode, k: &str, value: Option<JsonValue>)
    requires
        old(node).attributes_sorted(),
    ensures
        final(node).attributes_sorted(),
        final(node)@.name == old(node)@.name,
        final(node)@.role == old(node)@.role,
        final(node)@.children == old(node)@.children,
        forall|q: Seq<char>|
            #[trigger] lookup(final(node)@.attributes, q) == if q == k@ && value is Some {
                Some(value->0@)
            } else {
                lookup(old(node)@.attributes, q)
            },
{
    if let Some(v) = value {
        node.insert_attribute(key(k), v);
    }
}

/// A text value, when read (and not empty, where `nonempty_only` holds).
fn text_value(s: &Option<String>, nonempty_only: bool) -> (r: Option<JsonValue>)
    ensures
        match r {
            Some(v) => s is Some && (nonempty_only ==> present_text(*s)) && v@ == JsonView::Text(
                s->0@,
            ),
            None => s is None || (nonempty_only && !present_text(*s)),
        },
{
    match s {
        Some(t) => if nonempty_only && t.as_str().is_empty() {
            None
        } else {
            Some(JsonValue::Text(t.clone()))
        },
        None => None,
    }
}

fn bool_value(b: Option<bool>) -> (r: Option<JsonValue>)
    ensures
        match r {
            Some(v) => b is Some && v@ == JsonView::Bool(b->0),
            None => b is None,
        },
{
    match b {
        Some(x) => Some(JsonValue::Bool(x)),
        None => None,
    }
}

/// The node for an element, given what was read of it and its children's nodes.
#[verifier::rlimit(40)]
pub fn element_node(props: &ElementProps, children: Vec<UiNode>) -> (r: UiNode)
    ensures
        r@.name == element_name(*props),
        r@.role == element_role(*props),
        r.attributes_sorted(),
        forall|k: Seq<char>| #[trigger] lookup(r@.attributes, k) == element_attr(*props, k),
        r@.children == view_nodes(children@),
{
    let name = match &props.name {
        Some(n) => n.clone(),
        None => String::new(),
    };
    let role = if nonempty(&props.localized_control_type) {
        clone_opt_string(&props.localized_control_type)
    } else {
        None
    };
    let mut node = UiNode { name, role, attributes: Vec::new(), children };
    assert(node.attributes_sorted());
    let pid = match props.process_id {
        Some(v) => Some(number_value(v as i64)),
        None => None,
    };
    let handle = match &props.native_window_handle {
        Some(h) => if h.invalid {
            None
        } else {
            Some(JsonValue::Text(h.text.clone()))
        },
        None => None,
    };
    let bounds = match &props.bounding_rectangle {
        Some(b) => Some(box_value(b)),
        None => None,
    };
    let ghost n0 = node@.attributes;
    put(&mut node, "ControlType", text_value(&props.control_type, false));
    put(&mut node, "AutomationId", text_value(&props.automation_id, true));
    put(&mut node, "ClassName", text_value(&props.class_name, true));
    put(&mut node, "FrameworkId", text_value(&props.framework_id, true));
    put(&mut node, "HelpText", text_value(&props.help_text, true));
    put(&mut node, "ProcessId", pid);
    put(&mut node, "NativeWindowHandle", handle);
    put(&mut node, "BoundingRectangle", bounds);
    put(&mut node, "IsEnabled", bool_value(props.is_enabled));
    put(&mut node, "IsOffscreen", bool_value(props.is_offscreen));
    assert forall|k: Seq<char>| #[trigger] lookup(node@.attributes, k) == element_attr(*props, k) by {
        assert(lookup(n0, k) is None);
    }
    node
}

// ---------------------------------------------------------------------------
// Finding the element to capture
// ---------------------------------------------------------------------------

/// Where the search for the element to capture stands. Elements are named by handles
/// that the caller hands out.
#[derive(PartialEq, Eq, Structural, Clone, Copy, Debug)]
pub enum SearchPhase {
    /// Waiting to learn whether the base element matches.
    Base(u64),
    /// Waiting to learn whether this queued element, at this depth below the base,
    /// matches.
    Probing(u64, usize),
    /// Waiting for the children of an element at this depth.
    Expanding(usize),
    /// The search has given its answer.
    Done,
}

/// What the caller is to do next.
pub enum SearchAction {
    /// Test this element against the selectors and report it with `probed`.
    Probe(u64),
    /// List this element's children and report them with `expanded`.
    Expand(u64),
    /// This is the element to capture.
    Found(u64),
    /// No element matched; the selectors, described.
    NotFound(String),
}

/// A breadth-first search from a base element for the first element that matches the
/// selectors. Without selectors the base itself is taken; with `top_level_only` only
/// the base and its direct children are tested.
pub struct RootSearch {
    /// Elements still to test, front first, with their depth below the base.
    pub queue: VecDeque<(u64, usize)>,
    pub phase: SearchPhase,
    pub top_level_only: bool,
    /// The selectors as the not-found answer describes them.
    pub selectors: String,
}

/// The depth of a child of an element at depth `d`.
pub open spec fn child_depth(d: usize) -> usize {
    if d < usize::MAX {
        (d + 1) as usize
    } else {
        d
    }
}

/// Whether a configuration names any selector.
pub open spec fn has_selectors(options: Win32Config) -> bool {
    options.process_id is Some || options.window_title is Some
}

impl RootSearch {
    /// Starts a search from `base`: taken at once without selectors, otherwise tested
    /// first.
    pub fn start(base: u64, options: &Win32Config) -> (r: (RootSearch, SearchAction))
        ensures
            r.0.queue@.len() == 0,
            r.0.top_level_only == options.top_level_only,
            r.0.selectors@ == selectors_text(options.process_id, opt_view(options.window_title)),
            has_selectors(*options) ==> r.0.phase == SearchPhase::Base(base) && r.1
                == SearchAction::Probe(base),
            !has_selectors(*options) ==> r.0.phase == SearchPhase::Done && r.1
                == SearchAction::Found(base),
    {
        let search = RootSearch {
            queue: VecDeque::new(),
            phase: SearchPhase::Done,
            top_level_only: options.top_level_only,
            selectors: describe_selectors(options),
        };
        if options.process_id.is_none() && options.window_title.is_none() {
            (search, SearchAction::Found(base))
        } else {
            let mut search = search;
            search.phase = SearchPhase::Base(base);
            (search, SearchAction::Probe(base))
        }
    }

    /// Takes the next queued element to test, or answers that nothing matched.
    fn advance(&mut self) -> (r: SearchAction)
        ensures
            final(self).top_level_only == old(self).top_level_only,
            final(self).selectors == old(self).selectors,
            old(self).queue@.len() == 0 ==> {
                &&& final(self).queue@ == old(self).queue@
                &&& final(self).phase == SearchPhase::Done
                &&& r matches SearchAction::NotFound(m) && m@ == old(self).selectors@
            },
            old(self).queue@.len() > 0 ==> {
                &&& final(self).queue@ == old(self).queue@.drop_first()
                &&& final(self).phase == SearchPhase::Probing(
                    old(self).queue@[0].0,
                    old(self).queue@[0].1,
                )
                &&& r == SearchAction::Probe(old(self).queue@[0].0)
            },
    {
        match self.queue.pop_front() {
            Some((element, depth)) => {
                self.phase = SearchPhase::Probing(element, depth);
                assert(self.queue@ =~= old(self).queue@.drop_first());
                SearchAction::Probe(element)
            },
            None => {
                self.phase = SearchPhase::Done;
                SearchAction::NotFound(self.selectors.clone())
            },
        }
    }

    /// Reports whether the element just probed matches. A match is the answer;
    /// otherwise the base is expanded (with `top_level_only`) or queued, and a queued
    /// element is expanded unless `top_level_only` keeps the search at the top level.
    pub fn probed(&mut self, matched: bool) -> (r: SearchAction)
        requires
            old(self).phase is Base || old(self).phase is Probing,
        ensures
            final(self).top_level_only == old(self).top_level_only,
            final(self).selectors == old(self).selectors,
            match old(self).phase {
                SearchPhase::Base(b) => if matched {
                    final(self).phase == SearchPhase::Done && r == SearchAction::Found(b)
                        && final(self).queue@ == old(self).queue@
                } else if old(self).top_level_only {
                    final(self).phase == SearchPhase::Expanding(0) && r == SearchAction::Expand(b)
                        && final(self).queue@ == old(self).queue@
                } else {
                    next_of(old(self).queue@.push((b, 0usize)), old(self).selectors@, final(self).queue@, final(self).phase, r)
                },
                SearchPhase::Probing(e, d) => if matched {
                    final(self).phase == SearchPhase::Done && r == SearchAction::Found(e)
                        && final(self).queue@ == old(self).queue@
                } else if old(self).top_level_only && d >= 1 {
                    next_of(old(self).queue@, old(self).selectors@, final(self).queue@, final(self).phase, r)
                } else {
                    final(self).phase == SearchPhase::Expanding(d) && r == SearchAction::Expand(e)
                        && final(self).queue@ == old(self).queue@
                },
                _ => false,
            },
    {
        match self.phase {
            SearchPhase::Base(b) => {
                if matched {
                    self.phase = SearchPhase::Done;
                    SearchAction::Found(b)
                } else if self.top_level_only {
                    self.phase = SearchPhase::Expanding(0);
                    SearchAction::Expand(b)
                } else {
                    self.queue.push_back((b, 0));
                    self.advance()
                }
            },
            SearchPhase::Probing(e, d) => {
                if matched {
                    self.phase = SearchPhase::Done;
                    SearchAction::Found(e)
                } else if self.top_level_only && d >= 1 {
                    self.advance()
                } else {
                    self.phase = SearchPhase::Expanding(d);
                    SearchAction::Expand(e)
                }
            },
            _ => {
                proof {
                    assert(false);
                }
                SearchAction::Found(0)
            },
        }
    }

    /// Reports the children of the element just expanded: they join the back of the
    /// queue one level deeper, and the next queued element is taken.
    pub fn expanded(&mut self, children: &Vec<u64>) -> (r: SearchAction)
        requires
            old(self).phase is Expanding,
        ensures
            final(self).top_level_only == old(self).top_level_only,
            final(self).selectors == old(self).selectors,
            next_of(
                old(self).queue@ + children@.map_values(
                    |c: u64| (c, child_depth(old(self).phase->Expanding_0)),
                ),
                old(self).selectors@,
                final(self).queue@,
                final(self).phase,
                r,
            ),
    {
        let depth = match self.phase {
            SearchPhase::Expanding(d) => d,
            _ => {
                proof {
                    assert(false);
                }
                0
            },
        };
        let next = if depth < usize::MAX {
            depth + 1
        } else {
            depth
        };
        let ghost start = self.queue@;
        let mut i: usize = 0;
        while i < children.len()
            invariant
                i <= children.len(),
                self.top_level_only == old(self).top_level_only,
                self.selectors == old(self).selectors,
                next == child_depth(depth),
                depth == old(self).phase->Expanding_0,
                self.queue@ == start + children@.take(i as int).map_values(|c: u64| (c, next)),
            decreases children.len() - i,
        {
            self.queue.push_back((children[i], next));
            assert(children@.take(i + 1).map_values(|c: u64| (c, next)) =~= children@.take(
                i as int,
            ).map_values(|c: u64| (c, next)).push((children@[i as int], next)));
            i = i + 1;
        }
        assert(children@.take(children.len() as int) =~= children@);
        self.advance()
    }
}

/// The outcome of taking the next element from `queue`: the first one is to be
/// probed, or nothing matched when the queue is empty.
pub open spec fn next_of(
    queue: Seq<(u64, usize)>,
    selectors: Seq<char>,
    after: Seq<(u64, usize)>,
    phase: SearchPhase,
    action: SearchAction,
) -> bool {
    if queue.len() == 0 {
        &&& after == queue
        &&& phase == SearchPhase::Done
        &&& action matches SearchAction::NotFound(m) && m@ == selectors
    } else {
        &&& after == queue.drop_first()
        &&& phase == SearchPhase::Probing(queue[0].0, queue[0].1)
        &&& action == SearchAction::Probe(queue[0].0)
    }
}

} // verus!
