//! A small XPath subset: `/Name/*[@key='value']/...`, selecting nodes of a UI tree by
//! name (ASCII case-insensitive) and attribute predicates.
use vstd::prelude::*;

use crate::model::{json_value_to_string, lemma_view_nodes, plain_text, JsonView, NodeView, UiNode};
use crate::text::{
    ascii_lower_seq, chars_eq, eq_ignore_ascii_case, eq_ignore_case, find_from, first_index,
    lemma_first_index, push_chars, push_str, slice_chars, split_once, split_once_chars,
    string_of, to_ascii_lower_char, trim, trim_chars, chars_of,
};

verus! {

// ---------------------------------------------------------------------------
// Types and their views
// ---------------------------------------------------------------------------

/// Why an XPath expression was refused.
#[derive(Debug)]
pub enum XPathParseError {
    /// The expression does not start with '/' or has no segment.
    MissingRoot,
    /// A '[' in the given segment has no matching ']'.
    UnclosedPredicate(String),
    /// The given predicate is not of the form `@attribute=...`.
    InvalidPredicate(String),
    /// The value of the given predicate is not in single quotes.
    InvalidQuotedValue(String),
}

pub enum XPathErrorView {
    MissingRoot,
    UnclosedPredicate(Seq<char>),
    InvalidPredicate(Seq<char>),
    InvalidQuotedValue(Seq<char>),
}

impl View for XPathParseError {
    type V = XPathErrorView;

    open spec fn view(&self) -> XPathErrorView {
        match self {
            XPathParseError::MissingRoot => XPathErrorView::MissingRoot,
            XPathParseError::UnclosedPredicate(s) => XPathErrorView::UnclosedPredicate(s@),
            XPathParseError::InvalidPredicate(s) => XPathErrorView::InvalidPredicate(s@),
            XPathParseError::InvalidQuotedValue(s) => XPathErrorView::InvalidQuotedValue(s@),
        }
    }
}

/// A condition of a path segment.
#[derive(Debug)]
pub enum Predicate {
    NameEquals(String),
    RoleEquals(String),
    AttributeEquals(String, String),
}

pub enum PredicateView {
    NameEquals(Seq<char>),
    RoleEquals(Seq<char>),
    AttributeEquals(Seq<char>, Seq<char>),
}

impl View for Predicate {
    type V = PredicateView;

    open spec fn view(&self) -> PredicateView {
        match self {
            Predicate::NameEquals(v) => PredicateView::NameEquals(v@),
            Predicate::RoleEquals(v) => PredicateView::RoleEquals(v@),
            Predicate::AttributeEquals(k, v) => PredicateView::AttributeEquals(k@, v@),
        }
    }
}

/// One step of a path: an optional node name (none for `*`) and predicates.
#[derive(Debug)]
pub struct PathSegment {
    pub name: Option<String>,
    pub predicates: Vec<Predicate>,
}

pub struct SegmentView {
    pub name: Option<Seq<char>>,
    pub predicates: Seq<PredicateView>,
}

impl View for PathSegment {
    type V = SegmentView;

    open spec fn view(&self) -> SegmentView {
        SegmentView {
            name: match self.name {
                Some(n) => Some(n@),
                None => None,
            },
            predicates: self.predicates@.map_values(|p: Predicate| p@),
        }
    }
}

/// A parsed path: one segment per level below (and including) the root.
#[derive(Debug)]
pub struct XPath {
    segments: Vec<PathSegment>,
}

impl View for XPath {
    type V = Seq<SegmentView>;

    closed spec fn view(&self) -> Seq<SegmentView> {
        self.segments@.map_values(|s: PathSegment| s@)
    }
}

// ---------------------------------------------------------------------------
// The grammar
// ---------------------------------------------------------------------------

pub open spec fn name_word() -> Seq<char> {
    seq!['n', 'a', 'm', 'e']
}

pub open spec fn role_word() -> Seq<char> {
    seq!['r', 'o', 'l', 'e']
}

/// The text between single quotes, when `raw` is single-quoted.
pub open spec fn parse_quoted_spec(raw: Seq<char>) -> Option<Seq<char>> {
    if raw.len() >= 2 && raw[0] == '\'' && raw.last() == '\'' {
        Some(raw.subrange(1, raw.len() - 1))
    } else {
        None
    }
}

/// `@key='value'`: keys `name` and `role` (in any ASCII case) compare the node's name
/// or role, any other key (kept ASCII lower-cased) an attribute.
pub open spec fn parse_predicate_spec(raw: Seq<char>) -> Result<PredicateView, XPathErrorView> {
    let t = trim(raw);
    if !(t.len() > 0 && t[0] == '@') {
        Err(XPathErrorView::InvalidPredicate(raw))
    } else {
        match split_once(t.drop_first(), '=') {
            None => Err(XPathErrorView::InvalidPredicate(raw)),
            Some((lhs, rhs)) => match parse_quoted_spec(trim(rhs)) {
                None => Err(XPathErrorView::InvalidQuotedValue(raw)),
                Some(value) => {
                    let key = ascii_lower_seq(trim(lhs));
                    if key == name_word() {
                        Ok(PredicateView::NameEquals(value))
                    } else if key == role_word() {
                        Ok(PredicateView::RoleEquals(value))
                    } else {
                        Ok(PredicateView::AttributeEquals(key, value))
                    }
                },
            },
        }
    }
}

/// Index of the ']' that closes a predicate, `depth` brackets being open before `s`.
pub open spec fn close_index(s: Seq<char>, depth: int) -> Option<int>
    decreases s.len(),
{
    if s.len() == 0 {
        None
    } else {
        let rest = if s[0] == '[' {
            close_index(s.drop_first(), depth + 1)
        } else if s[0] == ']' && depth != 1 {
            close_index(s.drop_first(), depth - 1)
        } else {
            close_index(s.drop_first(), depth)
        };
        if s[0] == ']' && depth == 1 {
            Some(0)
        } else {
            match rest {
                Some(k) => Some(k + 1),
                None => None,
            }
        }
    }
}

pub enum ScanError {
    Unclosed,
    Predicate(XPathErrorView),
}

/// Splits a segment into its name characters and its predicates, left to right.
pub open spec fn scan_segment(s: Seq<char>) -> Result<(Seq<char>, Seq<PredicateView>), ScanError>
    decreases s.len(),
{
    if s.len() == 0 {
        Ok((Seq::empty(), Seq::empty()))
    } else if s[0] == '[' {
        let rest = s.drop_first();
        match close_index(rest, 1) {
            None => Err(ScanError::Unclosed),
            Some(k) => {
                if 0 <= k < rest.len() {
                    match parse_predicate_spec(trim(rest.take(k))) {
                        Err(e) => Err(ScanError::Predicate(e)),
                        Ok(p) => match scan_segment(rest.skip(k + 1)) {
                            Err(e) => Err(e),
                            Ok((nm, ps)) => Ok((nm, seq![p] + ps)),
                        },
                    }
                } else {
                    Err(ScanError::Unclosed)
                }
            },
        }
    } else {
        match scan_segment(s.drop_first()) {
            Err(e) => Err(e),
            Ok((nm, ps)) => Ok((seq![s[0]] + nm, ps)),
        }
    }
}

/// A segment: its trimmed name (none when empty or `*`) and predicates.
pub open spec fn parse_segment_spec(raw: Seq<char>) -> Result<SegmentView, XPathErrorView> {
    match scan_segment(raw) {
        Err(ScanError::Unclosed) => Err(XPathErrorView::UnclosedPredicate(raw)),
        Err(ScanError::Predicate(e)) => Err(e),
        Ok((nm, ps)) => {
            let t = trim(nm);
            Ok(
                SegmentView {
                    name: if t.len() == 0 || t == seq!['*'] {
                        None
                    } else {
                        Some(t)
                    },
                    predicates: ps,
                },
            )
        },
    }
}

/// The segments of the '/'-separated parts of `s`, parts that are blank once trimmed
/// being skipped.
pub open spec fn parse_segments_spec(s: Seq<char>) -> Result<Seq<SegmentView>, XPathErrorView>
    decreases s.len(),
{
    let part = match first_index(s, '/') {
        Some(i) => s.take(i),
        None => s,
    };
    let tail = match first_index(s, '/') {
        Some(i) => if 0 <= i < s.len() {
            parse_segments_spec(s.skip(i + 1))
        } else {
            Ok(Seq::empty())
        },
        None => Ok(Seq::empty()),
    };
    let t = trim(part);
    if t.len() == 0 {
        tail
    } else {
        match parse_segment_spec(t) {
            Err(e) => Err(e),
            Ok(seg) => match tail {
                Err(e) => Err(e),
                Ok(segs) => Ok(seq![seg] + segs),
            },
        }
    }
}

/// An expression: '/' followed by at least one non-blank segment.
pub open spec fn parse_xpath_spec(raw: Seq<char>) -> Result<Seq<SegmentView>, XPathErrorView> {
    if !(raw.len() > 0 && raw[0] == '/') {
        Err(XPathErrorView::MissingRoot)
    } else {
        match parse_segments_spec(raw.drop_first()) {
            Err(e) => Err(e),
            Ok(segs) => if segs.len() == 0 {
                Err(XPathErrorView::MissingRoot)
            } else {
                Ok(segs)
            },
        }
    }
}

// ---------------------------------------------------------------------------
// Parsing
// ---------------------------------------------------------------------------

/// The text between single quotes, when `raw` is single-quoted.
pub fn parse_quoted(raw: &Vec<char>) -> (r: Option<Vec<char>>)
    ensures
        match r {
            Some(v) => parse_quoted_spec(raw@) == Some(v@),
            None => parse_quoted_spec(raw@) is None,
        },
{
    let n = raw.len();
    if n < 2 || raw[0] != '\'' || raw[n - 1] != '\'' {
        return None;
    }
    Some(slice_chars(raw, 1, n - 1))
}

fn ascii_lower_chars(s: &Vec<char>) -> (r: Vec<char>)
    ensures
        r@ == ascii_lower_seq(s@),
{
    let mut out: Vec<char> = Vec::new();
    let mut i: usize = 0;
    while i < s.len()
        invariant
            i <= s.len(),
            out@ == ascii_lower_seq(s@.take(i as int)),
        decreases s.len() - i,
    {
        out.push(to_ascii_lower_char(s[i]));
        assert(ascii_lower_seq(s@.take(i + 1)) =~= ascii_lower_seq(s@.take(i as int)).push(
            crate::text::ascii_lower(s@[i as int]),
        ));
        i = i + 1;
    }
    assert(s@.take(s.len() as int) =~= s@);
    out
}

impl Predicate {
    /// Parses `@key='value'`; errors carry `raw`.
    pub fn parse(raw: &Vec<char>) -> (r: Result<Predicate, XPathParseError>)
        ensures
            match r {
                Ok(p) => parse_predicate_spec(raw@) == Ok::<PredicateView, XPathErrorView>(p@),
                Err(e) => parse_predicate_spec(raw@) == Err::<PredicateView, XPathErrorView>(e@),
            },
    {
        let t = trim_chars(raw);
        if t.len() == 0 || t[0] != '@' {
            return Err(XPathParseError::InvalidPredicate(string_of(raw)));
        }
        let body = slice_chars(&t, 1, t.len());
        assert(body@ == t@.drop_first());
        match split_once_chars(&body, '=') {
            None => Err(XPathParseError::InvalidPredicate(string_of(raw))),
            Some((lhs, rhs)) => {
                let rhs_t = trim_chars(&rhs);
                match parse_quoted(&rhs_t) {
                    None => Err(XPathParseError::InvalidQuotedValue(string_of(raw))),
                    Some(value) => {
                        let lhs_t = trim_chars(&lhs);
                        let key = ascii_lower_chars(&lhs_t);
                        let name_w = vec!['n', 'a', 'm', 'e'];
                        let role_w = vec!['r', 'o', 'l', 'e'];
                        assert(name_w@ == name_word());
                        assert(role_w@ == role_word());
                        if chars_eq(&key, &name_w) {
                            Ok(Predicate::NameEquals(string_of(&value)))
                        } else if chars_eq(&key, &role_w) {
                            Ok(Predicate::RoleEquals(string_of(&value)))
                        } else {
                            Ok(Predicate::AttributeEquals(string_of(&key), string_of(&value)))
                        }
                    },
                }
            },
        }
    }
}

/// Absolute index of the ']' closing a predicate whose '[' stands just before `start`.
fn find_close(cs: &Vec<char>, start: usize) -> (r: Option<usize>)
    requires
        1 <= start <= cs.len(),
    ensures
        match r {
            Some(j) => start <= j < cs.len() && close_index(cs@.skip(start as int), 1) == Some(
                j - start,
            ),
            None => close_index(cs@.skip(start as int), 1) is None,
        },
{
    let ghost s0 = cs@.skip(start as int);
    let mut depth: usize = 1;
    let mut i: usize = start;
    while i < cs.len()
        invariant
            start <= i <= cs.len(),
            1 <= start,
            s0 == cs@.skip(start as int),
            1 <= depth <= i - start + 1,
            close_index(s0, 1) == match close_index(cs@.skip(i as int), depth as int) {
                Some(k) => Some(k + (i - start)),
                None => None,
            },
        decreases cs.len() - i,
    {
        let ghost s = cs@.skip(i as int);
        assert(s[0] == cs@[i as int]);
        assert(s.drop_first() =~= cs@.skip(i + 1));
        let c = cs[i];
        if c == ']' && depth == 1 {
            return Some(i);
        }
        if c == '[' {
            depth = depth + 1;
        } else if c == ']' {
            depth = depth - 1;
        }
        i = i + 1;
    }
    assert(cs@.skip(i as int).len() == 0);
    None
}

/// Result of scanning a segment: the name characters and the predicates.
enum Scanned {
    Done(Vec<char>, Vec<Predicate>),
    Unclosed,
    Failed(XPathParseError),
}

spec fn preds_view(v: Seq<Predicate>) -> Seq<PredicateView> {
    v.map_values(|p: Predicate| p@)
}

spec fn scanned_ok(r: Scanned, expected: Result<(Seq<char>, Seq<PredicateView>), ScanError>) -> bool {
    match r {
        Scanned::Done(nm, ps) => expected == Ok::<(Seq<char>, Seq<PredicateView>), ScanError>(
            (nm@, preds_view(ps@)),
        ),
        Scanned::Unclosed => expected == Err::<(Seq<char>, Seq<PredicateView>), ScanError>(
            ScanError::Unclosed,
        ),
        Scanned::Failed(e) => expected == Err::<(Seq<char>, Seq<PredicateView>), ScanError>(
            ScanError::Predicate(e@),
        ),
    }
}

fn scan_from(cs: &Vec<char>, start: usize) -> (r: Scanned)
    requires
        start <= cs.len(),
    ensures
        scanned_ok(r, scan_segment(cs@.skip(start as int))),
    decreases cs.len() - start,
{
    let ghost s = cs@.skip(start as int);
    if start == cs.len() {
        assert(s.len() == 0);
        let nm: Vec<char> = Vec::new();
        let ps: Vec<Predicate> = Vec::new();
        assert(nm@ =~= Seq::<char>::empty());
        assert(preds_view(ps@) =~= Seq::<PredicateView>::empty());
        return Scanned::Done(nm, ps);
    }
    assert(s[0] == cs@[start as int]);
    if cs[start] == '[' {
        let ghost rest = s.drop_first();
        assert(rest =~= cs@.skip(start + 1));
        match find_close(cs, start + 1) {
            None => Scanned::Unclosed,
            Some(j) => {
                let inner = slice_chars(cs, start + 1, j);
                assert(inner@ =~= rest.take(j - (start + 1)));
                let t = trim_chars(&inner);
                match Predicate::parse(&t) {
                    Err(e) => Scanned::Failed(e),
                    Ok(p) => {
                        assert(rest.skip(j - (start + 1) + 1) =~= cs@.skip(j + 1));
                        match scan_from(cs, j + 1) {
                            Scanned::Done(nm, mut ps) => {
                                let ghost old_ps = ps@;
                                ps.insert(0, p);
                                assert(preds_view(ps@) =~= seq![p@] + preds_view(old_ps));
                                Scanned::Done(nm, ps)
                            },
                            Scanned::Unclosed => Scanned::Unclosed,
                            Scanned::Failed(e) => Scanned::Failed(e),
                        }
                    },
                }
            },
        }
    } else {
        assert(s.drop_first() =~= cs@.skip(start + 1));
        match scan_from(cs, start + 1) {
            Scanned::Done(mut nm, ps) => {
                let ghost old_nm = nm@;
                nm.insert(0, cs[start]);
                assert(nm@ =~= seq![s[0]] + old_nm);
                Scanned::Done(nm, ps)
            },
            Scanned::Unclosed => Scanned::Unclosed,
            Scanned::Failed(e) => Scanned::Failed(e),
        }
    }
}

impl PathSegment {
    /// Parses one segment such as `Name[@key='value']`; errors carry `raw`.
    pub fn parse(raw: &Vec<char>) -> (r: Result<PathSegment, XPathParseError>)
        ensures
            match r {
                Ok(seg) => parse_segment_spec(raw@) == Ok::<SegmentView, XPathErrorView>(seg@),
                Err(e) => parse_segment_spec(raw@) == Err::<SegmentView, XPathErrorView>(e@),
            },
    {
        assert(raw@.skip(0) =~= raw@);
        match scan_from(raw, 0) {
            Scanned::Unclosed => Err(XPathParseError::UnclosedPredicate(string_of(raw))),
            Scanned::Failed(e) => Err(e),
            Scanned::Done(nm, ps) => {
                let t = trim_chars(&nm);
                let star = t.len() == 1 && t[0] == '*';
                assert(star == (t@ == seq!['*'])) by {
                    if t@.len() == 1 && t@[0] == '*' {
                        assert(t@ =~= seq!['*']);
                    }
                }
                let name = if t.len() == 0 || star {
                    None
                } else {
                    Some(string_of(&t))
                };
                let seg = PathSegment { name, predicates: ps };
                assert(seg@.predicates =~= preds_view(ps@));
                Ok(seg)
            },
        }
    }
}

spec fn segs_view(v: Seq<PathSegment>) -> Seq<SegmentView> {
    v.map_values(|s: PathSegment| s@)
}

fn parse_segments_from(cs: &Vec<char>, start: usize) -> (r: Result<Vec<PathSegment>, XPathParseError>)
    requires
        start <= cs.len(),
    ensures
        match r {
            Ok(v) => parse_segments_spec(cs@.skip(start as int)) == Ok::<
                Seq<SegmentView>,
                XPathErrorView,
            >(segs_view(v@)),
            Err(e) => parse_segments_spec(cs@.skip(start as int)) == Err::<
                Seq<SegmentView>,
                XPathErrorView,
            >(e@),
        },
    decreases cs.len() - start,
{
    let ghost s = cs@.skip(start as int);
    let slash = find_from(cs, start, '/');
    let end = match slash {
        Some(j) => j,
        None => cs.len(),
    };
    let part = slice_chars(cs, start, end);
    proof {
        lemma_first_index(s, '/');
        match slash {
            Some(j) => {
                assert(part@ =~= s.take(j - start));
            },
            None => {
                assert(part@ =~= s);
            },
        }
    }
    let tail = match slash {
        Some(j) => {
            assert(s.skip(j - start + 1) =~= cs@.skip(j + 1));
            parse_segments_from(cs, j + 1)
        },
        None => {
            let v: Vec<PathSegment> = Vec::new();
            assert(segs_view(v@) =~= Seq::<SegmentView>::empty());
            Ok(v)
        },
    };
    let t = trim_chars(&part);
    if t.len() == 0 {
        match tail {
            Ok(v) => Ok(v),
            Err(e) => Err(e),
        }
    } else {
        match PathSegment::parse(&t) {
            Err(e) => Err(e),
            Ok(seg) => match tail {
                Err(e) => Err(e),
                Ok(mut segs) => {
                    let ghost old_segs = segs@;
                    segs.insert(0, seg);
                    assert(segs_view(segs@) =~= seq![seg@] + segs_view(old_segs));
                    Ok(segs)
                },
            },
        }
    }
}

impl XPath {
    /// The segments, root first.
    pub fn segments(&self) -> (r: &Vec<PathSegment>)
        ensures
            r@.map_values(|s: PathSegment| s@) == self@,
    {
        &self.segments
    }

    /// Parses an expression such as `/Desktop/*[@AutomationId='Calc']`.
    pub fn parse(raw: &str) -> (r: Result<XPath, XPathParseError>)
        ensures
            match r {
                Ok(x) => parse_xpath_spec(raw@) == Ok::<Seq<SegmentView>, XPathErrorView>(x@),
                Err(e) => parse_xpath_spec(raw@) == Err::<Seq<SegmentView>, XPathErrorView>(e@),
            },
    {
        let cs = chars_of(raw);
        if cs.len() == 0 || cs[0] != '/' {
            return Err(XPathParseError::MissingRoot);
        }
        assert(cs@.skip(1) =~= raw@.drop_first());
        match parse_segments_from(&cs, 1) {
            Err(e) => Err(e),
            Ok(segments) => {
                if segments.len() == 0 {
                    Err(XPathParseError::MissingRoot)
                } else {
                    Ok(XPath { segments })
                }
            },
        }
    }
}

// ---------------------------------------------------------------------------
// Matching and selection
// ---------------------------------------------------------------------------

/// The value of the first attribute whose key equals `key` up to ASCII case.
pub open spec fn first_ci(attrs: Seq<(Seq<char>, JsonView)>, key: Seq<char>) -> Option<JsonView>
    decreases attrs.len(),
{
    if attrs.len() == 0 {
        None
    } else if eq_ignore_case(attrs[0].0, key) {
        Some(attrs[0].1)
    } else {
        first_ci(attrs.drop_first(), key)
    }
}

/// A predicate holds of a node; all comparisons ignore ASCII case.
pub open spec fn pred_matches(p: PredicateView, n: NodeView) -> bool {
    match p {
        PredicateView::NameEquals(e) => eq_ignore_case(n.name, e),
        PredicateView::RoleEquals(e) => n.role matches Some(r) && eq_ignore_case(r, e),
        PredicateView::AttributeEquals(k, e) => match first_ci(n.attributes, k) {
            Some(v) => eq_ignore_case(plain_text(v), e),
            None => false,
        },
    }
}

/// A segment selects a node: same name up to ASCII case (any name for `*`) and every
/// predicate holds.
pub open spec fn seg_matches(seg: SegmentView, n: NodeView) -> bool {
    &&& (seg.name matches Some(nm) ==> eq_ignore_case(n.name, nm))
    &&& forall|i: int| 0 <= i < seg.predicates.len() ==> pred_matches(#[trigger] seg.predicates[i], n)
}

/// The nodes of `s` that the segment selects, in order.
pub open spec fn matching(s: Seq<NodeView>, seg: SegmentView) -> Seq<NodeView>
    decreases s.len(),
{
    if s.len() == 0 {
        Seq::empty()
    } else {
        matching(s.drop_last(), seg) + if seg_matches(seg, s.last()) {
            seq![s.last()]
        } else {
            Seq::empty()
        }
    }
}

/// One step: for each current node in order, the node itself when this is the first
/// segment and it matches, then its matching children.
pub open spec fn step(cur: Seq<NodeView>, seg: SegmentView, first: bool) -> Seq<NodeView>
    decreases cur.len(),
{
    if cur.len() == 0 {
        Seq::empty()
    } else {
        let n = cur.last();
        step(cur.drop_last(), seg, first) + (if first && seg_matches(seg, n) {
            seq![n]
        } else {
            Seq::empty()
        }) + matching(n.children, seg)
    }
}

/// The nodes reached from `cur` by the segments from index `i` on.
pub open spec fn run_from(cur: Seq<NodeView>, segs: Seq<SegmentView>, i: int) -> Seq<NodeView>
    decreases segs.len() - i,
{
    if i < 0 || i >= segs.len() {
        cur
    } else {
        run_from(step(cur, segs[i], i == 0), segs, i + 1)
    }
}

/// The nodes that a path selects from a tree, in document order of the steps.
pub open spec fn select_spec(root: NodeView, segs: Seq<SegmentView>) -> Seq<NodeView> {
    run_from(seq![root], segs, 0)
}

proof fn lemma_run_from_empty(segs: Seq<SegmentView>, i: int)
    requires
        i >= 0,
    ensures
        run_from(Seq::empty(), segs, i) == Seq::<NodeView>::empty(),
    decreases segs.len() - i,
{
    if i < segs.len() {
        assert(step(Seq::empty(), segs[i], i == 0) =~= Seq::<NodeView>::empty());
        lemma_run_from_empty(segs, i + 1);
    }
}

/// A segment selects a node only if every one of its predicates holds of the node.
pub proof fn law_segment_needs_every_predicate(seg: SegmentView, n: NodeView, j: int)
    requires
        seg_matches(seg, n),
        0 <= j < seg.predicates.len(),
    ensures
        pred_matches(seg.predicates[j], n),
{
}

proof fn lemma_matching_all(s: Seq<NodeView>, seg: SegmentView)
    ensures
        forall|k: int|
            0 <= k < matching(s, seg).len() ==> seg_matches(seg, #[trigger] matching(s, seg)[k]),
    decreases s.len(),
{
    if s.len() > 0 {
        lemma_matching_all(s.drop_last(), seg);
        let a = matching(s.drop_last(), seg);
        let b = if seg_matches(seg, s.last()) {
            seq![s.last()]
        } else {
            Seq::<NodeView>::empty()
        };
        assert forall|k: int| 0 <= k < (a + b).len() implies seg_matches(seg, #[trigger] (a + b)[k]) by {
            if k < a.len() {
                assert((a + b)[k] == a[k]);
            } else {
                assert((a + b)[k] == b[k - a.len()]);
            }
        }
    }
}

proof fn lemma_step_all(cur: Seq<NodeView>, seg: SegmentView, first: bool)
    ensures
        forall|k: int|
            0 <= k < step(cur, seg, first).len() ==> seg_matches(
                seg,
                #[trigger] step(cur, seg, first)[k],
            ),
    decreases cur.len(),
{
    if cur.len() > 0 {
        let n = cur.last();
        lemma_step_all(cur.drop_last(), seg, first);
        lemma_matching_all(n.children, seg);
        let a = step(cur.drop_last(), seg, first);
        let b = if first && seg_matches(seg, n) {
            seq![n]
        } else {
            Seq::<NodeView>::empty()
        };
        let c = matching(n.children, seg);
        assert forall|k: int| 0 <= k < (a + b + c).len() implies seg_matches(
            seg,
            #[trigger] (a + b + c)[k],
        ) by {
            if k < a.len() {
                assert((a + b + c)[k] == a[k]);
            } else if k < a.len() + b.len() {
                assert((a + b + c)[k] == b[k - a.len()]);
            } else {
                assert((a + b + c)[k] == c[k - a.len() - b.len()]);
            }
        }
    }
}

proof fn lemma_run_from_last(cur: Seq<NodeView>, segs: Seq<SegmentView>, i: int)
    requires
        0 <= i < segs.len(),
    ensures
        forall|k: int|
            0 <= k < run_from(cur, segs, i).len() ==> seg_matches(
                segs.last(),
                #[trigger] run_from(cur, segs, i)[k],
            ),
    decreases segs.len() - i,
{
    let next = step(cur, segs[i], i == 0);
    assert(run_from(cur, segs, i) == run_from(next, segs, i + 1));
    if i + 1 == segs.len() {
        lemma_step_all(cur, segs[i], i == 0);
        assert(segs[i] == segs.last());
        assert(run_from(next, segs, i + 1) == next);
    } else {
        lemma_run_from_last(next, segs, i + 1);
    }
}

/// Every node that a path selects satisfies its last segment: the name (if any) up to
/// ASCII case, and every one of that segment's predicates.
pub proof fn law_selected_nodes_meet_last_segment(
    root: NodeView,
    segs: Seq<SegmentView>,
    k: int,
    j: int,
)
    requires
        segs.len() > 0,
        0 <= k < select_spec(root, segs).len(),
        0 <= j < segs.last().predicates.len(),
    ensures
        segs.last().name matches Some(nm) ==> eq_ignore_case(select_spec(root, segs)[k].name, nm),
        pred_matches(segs.last().predicates[j], select_spec(root, segs)[k]),
{
    lemma_run_from_last(seq![root], segs, 0);
    assert(seg_matches(segs.last(), select_spec(root, segs)[k]));
}

/// A segment keeps every node of a list that it selects, and only those.
pub proof fn law_matching_keeps_every_match(s: Seq<NodeView>, seg: SegmentView, i: int)
    requires
        0 <= i < s.len(),
    ensures
        seg_matches(seg, s[i]) ==> matching(s, seg).contains(s[i]),
        forall|k: int|
            0 <= k < matching(s, seg).len() ==> seg_matches(seg, #[trigger] matching(s, seg)[k]),
    decreases s.len(),
{
    lemma_matching_all(s, seg);
    if seg_matches(seg, s[i]) {
        let a = matching(s.drop_last(), seg);
        if i == s.len() - 1 {
            assert((a + seq![s.last()])[a.len() as int] == s[i]);
        } else {
            assert(s.drop_last()[i] == s[i]);
            law_matching_keeps_every_match(s.drop_last(), seg, i);
            let b = if seg_matches(seg, s.last()) {
                seq![s.last()]
            } else {
                Seq::<NodeView>::empty()
            };
            let j = choose|j: int| 0 <= j < a.len() && a[j] == s[i];
            assert((a + b)[j] == s[i]);
        }
    }
}

/// One step keeps every child of every current node that the segment selects (and,
/// on the first step, every current node that it selects).
pub proof fn law_step_keeps_every_match(
    cur: Seq<NodeView>,
    seg: SegmentView,
    first: bool,
    i: int,
    j: int,
)
    requires
        0 <= i < cur.len(),
    ensures
        0 <= j < cur[i].children.len() && seg_matches(seg, cur[i].children[j]) ==> step(
            cur,
            seg,
            first,
        ).contains(cur[i].children[j]),
        first && seg_matches(seg, cur[i]) ==> step(cur, seg, first).contains(cur[i]),
    decreases cur.len(),
{
    let n = cur.last();
    let a = step(cur.drop_last(), seg, first);
    let b = if first && seg_matches(seg, n) {
        seq![n]
    } else {
        Seq::<NodeView>::empty()
    };
    let c = matching(n.children, seg);
    assert(step(cur, seg, first) == a + b + c);
    if i == cur.len() - 1 {
        if 0 <= j < n.children.len() && seg_matches(seg, n.children[j]) {
            law_matching_keeps_every_match(n.children, seg, j);
            let k = choose|k: int| 0 <= k < c.len() && c[k] == n.children[j];
            assert((a + b + c)[a.len() + b.len() + k] == n.children[j]);
        }
        if first && seg_matches(seg, n) {
            assert((a + b + c)[a.len() as int] == n);
        }
    } else {
        assert(cur.drop_last()[i] == cur[i]);
        law_step_keeps_every_match(cur.drop_last(), seg, first, i, j);
        if 0 <= j < cur[i].children.len() && seg_matches(seg, cur[i].children[j]) {
            let k = choose|k: int| 0 <= k < a.len() && a[k] == cur[i].children[j];
            assert((a + b + c)[k] == cur[i].children[j]);
        }
        if first && seg_matches(seg, cur[i]) {
            let k = choose|k: int| 0 <= k < a.len() && a[k] == cur[i];
            assert((a + b + c)[k] == cur[i]);
        }
    }
}

spec fn ref_views(s: Seq<&UiNode>) -> Seq<NodeView> {
    s.map_values(|n: &UiNode| n@)
}

impl Predicate {
    /// Whether the predicate holds of the node.
    #[verifier::loop_isolation(false)]
    pub fn matches(&self, node: &UiNode) -> (r: bool)
        ensures
            r == pred_matches(self@, node@),
    {
        match self {
            Predicate::NameEquals(expected) => eq_ignore_ascii_case(
                node.name.as_str(),
                expected.as_str(),
            ),
            Predicate::RoleEquals(expected) => match &node.role {
                Some(role) => eq_ignore_ascii_case(role.as_str(), expected.as_str()),
                None => false,
            },
            Predicate::AttributeEquals(key, expected) => {
                let ghost attrs = node@.attributes;
                let mut i: usize = 0;
                assert(attrs.skip(0) =~= attrs);
                while i < node.attributes.len()
                    invariant
                        i <= node.attributes.len(),
                        attrs == node@.attributes,
                        attrs.len() == node.attributes@.len(),
                        first_ci(attrs, key@) == first_ci(attrs.skip(i as int), key@),
                    decreases node.attributes.len() - i,
                {
                    let ghost rest = attrs.skip(i as int);
                    assert(rest.len() > 0);
                    assert(rest[0] == attrs[i as int]);
                    assert(attrs[i as int] == (node.attributes@[i as int].0@, node.attributes@[
                        i as int].1@));
                    if eq_ignore_ascii_case(node.attributes[i].0.as_str(), key.as_str()) {
                        let actual = json_value_to_string(&node.attributes[i].1);
                        assert(first_ci(rest, key@) == Some(rest[0].1));
                        assert(rest[0].1 == node.attributes@[i as int].1@);
                        return eq_ignore_ascii_case(actual.as_str(), expected.as_str());
                    }
                    assert(rest.drop_first() =~= attrs.skip(i + 1));
                    i = i + 1;
                }
                false
            },
        }
    }
}

impl PathSegment {
    /// Whether the segment selects the node.
    pub fn matches(&self, node: &UiNode) -> (r: bool)
        ensures
            r == seg_matches(self@, node@),
    {
        if let Some(name) = &self.name {
            if !eq_ignore_ascii_case(node.name.as_str(), name.as_str()) {
                return false;
            }
        }
        let mut i: usize = 0;
        while i < self.predicates.len()
            invariant
                i <= self.predicates.len(),
                self@.name matches Some(nm) ==> eq_ignore_case(node@.name, nm),
                forall|k: int| 0 <= k < i ==> pred_matches(#[trigger] self@.predicates[k], node@),
            decreases self.predicates.len() - i,
        {
            if !self.predicates[i].matches(node) {
                assert(!pred_matches(self@.predicates[i as int], node@));
                return false;
            }
            i = i + 1;
        }
        true
    }
}

proof fn lemma_step_take(cur: Seq<NodeView>, seg: SegmentView, first: bool, j: int)
    requires
        0 <= j < cur.len(),
    ensures
        step(cur.take(j + 1), seg, first) == step(cur.take(j), seg, first) + (if first
            && seg_matches(seg, cur[j]) {
            seq![cur[j]]
        } else {
            Seq::empty()
        }) + matching(cur[j].children, seg),
{
    assert(cur.take(j + 1).drop_last() =~= cur.take(j));
}

proof fn lemma_matching_take(s: Seq<NodeView>, seg: SegmentView, k: int)
    requires
        0 <= k < s.len(),
    ensures
        matching(s.take(k + 1), seg) == matching(s.take(k), seg) + if seg_matches(seg, s[k]) {
            seq![s[k]]
        } else {
            Seq::empty()
        },
{
    assert(s.take(k + 1).drop_last() =~= s.take(k));
}

impl XPath {
    /// Copies of the nodes that the path selects from the tree rooted at `root`.
    pub fn select(&self, root: &UiNode) -> (r: Vec<UiNode>)
        ensures
            crate::model::view_nodes(r@) == select_spec(root@, self@),
    {
        let ghost segs = self@;
        let mut current: Vec<&UiNode> = Vec::new();
        current.push(root);
        assert(ref_views(current@) =~= seq![root@]);
        let mut index: usize = 0;
        while index < self.segments.len() && current.len() > 0
            invariant
                index <= self.segments.len(),
                segs == self@,
                segs.len() == self.segments@.len(),
                forall|k: int| 0 <= k < segs.len() ==> #[trigger] segs[k] == self.segments@[k]@,
                run_from(seq![root@], segs, 0) == run_from(ref_views(current@), segs, index as int),
            decreases self.segments.len() - index,
        {
            let seg = &self.segments[index];
            let first = index == 0;
            let ghost cur = ref_views(current@);
            let mut next: Vec<&UiNode> = Vec::new();
            let mut j: usize = 0;
            assert(ref_views(next@) =~= step(cur.take(0), seg@, first));
            while j < current.len()
                invariant
                    j <= current.len(),
                    cur == ref_views(current@),
                    cur.len() == current@.len(),
                    ref_views(next@) == step(cur.take(j as int), seg@, first),
                decreases current.len() - j,
            {
                let node: &UiNode = current[j];
                assert(cur[j as int] == node@);
                proof {
                    lemma_step_take(cur, seg@, first, j as int);
                    lemma_view_nodes(node.children@);
                }
                let ghost base = ref_views(next@);
                if first && seg.matches(node) {
                    next.push(node);
                    assert(ref_views(next@) =~= base + seq![node@]);
                } else {
                    assert(base + Seq::<NodeView>::empty() =~= base);
                }
                let ghost mid = ref_views(next@);
                let ghost kids = node@.children;
                let mut k: usize = 0;
                assert(mid + matching(kids.take(0), seg@) =~= mid);
                while k < node.children.len()
                    invariant
                        k <= node.children.len(),
                        kids == node@.children,
                        kids.len() == node.children@.len(),
                        forall|m: int|
                            0 <= m < kids.len() ==> #[trigger] kids[m] == node.children@[m]@,
                        ref_views(next@) == mid + matching(kids.take(k as int), seg@),
                    decreases node.children.len() - k,
                {
                    let child: &UiNode = &node.children[k];
                    proof {
                        lemma_matching_take(kids, seg@, k as int);
                    }
                    let ghost before = ref_views(next@);
                    if seg.matches(child) {
                        next.push(child);
                        assert(ref_views(next@) =~= before + seq![child@]);
                    } else {
                        assert(before + Seq::<NodeView>::empty() =~= before);
                    }
                    assert(mid + matching(kids.take(k + 1), seg@) =~= ref_views(next@));
                    k = k + 1;
                }
                assert(kids.take(node.children.len() as int) =~= kids);
                j = j + 1;
            }
            assert(cur.take(current.len() as int) =~= cur);
            current = next;
            index = index + 1;
        }
        if current.len() == 0 {
            proof {
                assert(ref_views(current@) =~= Seq::<NodeView>::empty());
                lemma_run_from_empty(segs, index as int);
            }
        }
        let mut result: Vec<UiNode> = Vec::new();
        let mut i: usize = 0;
        while i < current.len()
            invariant
                i <= current.len(),
                crate::model::view_nodes(result@) == ref_views(current@).take(i as int),
            decreases current.len() - i,
        {
            let c = current[i].clone_node();
            proof {
                crate::model::lemma_view_nodes_push(result@, c);
            }
            result.push(c);
            assert(crate::model::view_nodes(result@) =~= ref_views(current@).take(i + 1));
            i = i + 1;
        }
        assert(ref_views(current@).take(current.len() as int) =~= ref_views(current@));
        result
    }
}

// ---------------------------------------------------------------------------
// Writing a path back as text
// ---------------------------------------------------------------------------

pub open spec fn quoted_value(v: Seq<char>) -> Seq<char> {
    seq!['\''] + v + seq!['\'']
}

/// `@name='v'`, `@role='v'` or `@key='v'`.
pub open spec fn pred_text(p: PredicateView) -> Seq<char> {
    match p {
        PredicateView::NameEquals(v) => seq!['@'] + name_word() + seq!['='] + quoted_value(v),
        PredicateView::RoleEquals(v) => seq!['@'] + role_word() + seq!['='] + quoted_value(v),
        PredicateView::AttributeEquals(k, v) => seq!['@'] + k + seq!['='] + quoted_value(v),
    }
}

/// Each predicate in brackets, in order.
pub open spec fn preds_text(ps: Seq<PredicateView>) -> Seq<char>
    decreases ps.len(),
{
    if ps.len() == 0 {
        Seq::empty()
    } else {
        preds_text(ps.drop_last()) + seq!['['] + pred_text(ps.last()) + seq![']']
    }
}

/// The name (or `*`) followed by the predicates.
pub open spec fn seg_text(s: SegmentView) -> Seq<char> {
    let head = match s.name {
        Some(n) => n,
        None => seq!['*'],
    };
    head + preds_text(s.predicates)
}

/// The segments joined by '/'.
pub open spec fn segs_text(segs: Seq<SegmentView>) -> Seq<char>
    decreases segs.len(),
{
    if segs.len() == 0 {
        Seq::empty()
    } else if segs.len() == 1 {
        seg_text(segs[0])
    } else {
        segs_text(segs.drop_last()) + seq!['/'] + seg_text(segs.last())
    }
}

/// '/' followed by the segments joined by '/'.
pub open spec fn path_text(segs: Seq<SegmentView>) -> Seq<char> {
    seq!['/'] + segs_text(segs)
}

fn push_quoted_value(out: &mut String, v: &String)
    ensures
        final(out)@ == old(out)@ + quoted_value(v@),
{
    crate::text::push_char(out, '\'');
    push_str(out, v.as_str());
    crate::text::push_char(out, '\'');
    assert(final(out)@ =~= old(out)@ + quoted_value(v@));
}

impl Predicate {
    /// The predicate as XPath text, without brackets.
    pub fn to_text(&self) -> (r: String)
        ensures
            r@ == pred_text(self@),
    {
        let mut out = String::new();
        crate::text::push_char(&mut out, '@');
        match self {
            Predicate::NameEquals(v) => {
                let w = vec!['n', 'a', 'm', 'e'];
                push_chars(&mut out, &w);
                crate::text::push_char(&mut out, '=');
                push_quoted_value(&mut out, v);
            },
            Predicate::RoleEquals(v) => {
                let w = vec!['r', 'o', 'l', 'e'];
                push_chars(&mut out, &w);
                crate::text::push_char(&mut out, '=');
                push_quoted_value(&mut out, v);
            },
            Predicate::AttributeEquals(k, v) => {
                push_str(&mut out, k.as_str());
                crate::text::push_char(&mut out, '=');
                push_quoted_value(&mut out, v);
            },
        }
        assert(out@ =~= pred_text(self@));
        out
    }
}

impl PathSegment {
    /// The segment as XPath text.
    pub fn to_text(&self) -> (r: String)
        ensures
            r@ == seg_text(self@),
    {
        let mut out = String::new();
        match &self.name {
            Some(n) => push_str(&mut out, n.as_str()),
            None => crate::text::push_char(&mut out, '*'),
        }
        let ghost head = out@;
        let ghost ps = self@.predicates;
        let mut i: usize = 0;
        assert(ps.take(0) =~= Seq::<PredicateView>::empty());
        assert(out@ =~= head + preds_text(ps.take(0)));
        while i < self.predicates.len()
            invariant
                i <= self.predicates.len(),
                ps == self@.predicates,
                ps.len() == self.predicates@.len(),
                out@ == head + preds_text(ps.take(i as int)),
            decreases self.predicates.len() - i,
        {
            crate::text::push_char(&mut out, '[');
            let t = self.predicates[i].to_text();
            push_str(&mut out, t.as_str());
            crate::text::push_char(&mut out, ']');
            assert(ps.take(i + 1).drop_last() =~= ps.take(i as int));
            assert(ps[i as int] == self.predicates@[i as int]@);
            assert(out@ =~= head + preds_text(ps.take(i + 1)));
            i = i + 1;
        }
        assert(ps.take(self.predicates.len() as int) =~= ps);
        out
    }
}

impl XPath {
    /// The path as XPath text: '/' and the segments joined by '/'.
    pub fn to_text(&self) -> (r: String)
        ensures
            r@ == path_text(self@),
    {
        let ghost segs = self@;
        let mut out = String::new();
        crate::text::push_char(&mut out, '/');
        let ghost head = out@;
        let mut i: usize = 0;
        assert(out@ =~= head + segs_text(segs.take(0)));
        while i < self.segments.len()
            invariant
                i <= self.segments.len(),
                segs == self@,
                segs.len() == self.segments@.len(),
                forall|k: int| 0 <= k < segs.len() ==> #[trigger] segs[k] == self.segments@[k]@,
                out@ == head + segs_text(segs.take(i as int)),
            decreases self.segments.len() - i,
        {
            if i > 0 {
                crate::text::push_char(&mut out, '/');
            }
            let t = self.segments[i].to_text();
            push_str(&mut out, t.as_str());
            assert(segs.take(i + 1).drop_last() =~= segs.take(i as int));
            if i == 0 {
                assert(segs.take(1)[0] == segs[0]);
            }
            assert(out@ =~= head + segs_text(segs.take(i + 1)));
            i = i + 1;
        }
        assert(segs.take(self.segments.len() as int) =~= segs);
        assert(out@ =~= path_text(segs));
        out
    }
}

/// The message of a parse error.
pub open spec fn error_text(e: XPathErrorView) -> Seq<char> {
    match e {
        XPathErrorView::MissingRoot => "XPath must start with '/' and contain at least one segment"@,
        XPathErrorView::UnclosedPredicate(s) => "unclosed predicate in segment '"@ + s + "'"@,
        XPathErrorView::InvalidPredicate(s) => "invalid predicate '"@ + s
            + "', expected @attribute='value'"@,
        XPathErrorView::InvalidQuotedValue(s) => "invalid quoted value in predicate '"@ + s
            + "'"@,
    }
}

impl XPathParseError {
    /// The error message.
    pub fn message(&self) -> (r: String)
        ensures
            r@ == error_text(self@),
    {
        let mut out = String::new();
        match self {
            XPathParseError::MissingRoot => {
                push_str(&mut out, "XPath must start with '/' and contain at least one segment");
            },
            XPathParseError::UnclosedPredicate(s) => {
                push_str(&mut out, "unclosed predicate in segment '");
                push_str(&mut out, s.as_str());
                push_str(&mut out, "'");
            },
            XPathParseError::InvalidPredicate(s) => {
                push_str(&mut out, "invalid predicate '");
                push_str(&mut out, s.as_str());
                push_str(&mut out, "', expected @attribute='value'");
            },
            XPathParseError::InvalidQuotedValue(s) => {
                push_str(&mut out, "invalid quoted value in predicate '");
                push_str(&mut out, s.as_str());
                push_str(&mut out, "'");
            },
        }
        out
    }
}

} // verus!
