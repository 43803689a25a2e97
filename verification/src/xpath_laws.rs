//! The text form of a parsed path reads back as the same path.
use vstd::prelude::*;

use crate::text::{
    ascii_lower, ascii_lower_seq, first_index, is_ws, lemma_first_index, lemma_first_index_at,
    split_once, trim, trim_end, trim_start,
};
use crate::xpath::{
    close_index, name_word, parse_predicate_spec, parse_quoted_spec, parse_segment_spec,
    parse_segments_spec, parse_xpath_spec, path_text, pred_text, preds_text, quoted_value,
    role_word, scan_segment, seg_text, segs_text, PredicateView, ScanError, SegmentView,
    XPathErrorView,
};

verus! {

// ---------------------------------------------------------------------------
// Characters that a text lacks
// ---------------------------------------------------------------------------

/// `s` holds no `c`.
pub open spec fn lacks(s: Seq<char>, c: char) -> bool {
    forall|i: int| 0 <= i < s.len() ==> s[i] != c
}

proof fn lemma_lacks_concat(a: Seq<char>, b: Seq<char>, c: char)
    ensures
        lacks(a + b, c) == (lacks(a, c) && lacks(b, c)),
{
    if lacks(a + b, c) {
        assert forall|i: int| 0 <= i < a.len() implies a[i] != c by {
            assert((a + b)[i] == a[i]);
        }
        assert forall|i: int| 0 <= i < b.len() implies b[i] != c by {
            assert((a + b)[a.len() + i] == b[i]);
        }
    }
    if lacks(a, c) && lacks(b, c) {
        assert forall|i: int| 0 <= i < (a + b).len() implies (a + b)[i] != c by {
            if i < a.len() {
                assert((a + b)[i] == a[i]);
            } else {
                assert((a + b)[i] == b[i - a.len()]);
            }
        }
    }
}

proof fn lemma_lacks_subrange(s: Seq<char>, i: int, j: int, c: char)
    requires
        lacks(s, c),
        0 <= i <= j <= s.len(),
    ensures
        lacks(s.subrange(i, j), c),
{
    assert forall|k: int| 0 <= k < j - i implies s.subrange(i, j)[k] != c by {
        assert(s.subrange(i, j)[k] == s[i + k]);
    }
}

proof fn lemma_trim_start_lacks(s: Seq<char>, c: char)
    requires
        lacks(s, c),
    ensures
        lacks(trim_start(s), c),
    decreases s.len(),
{
    if s.len() > 0 && is_ws(s[0]) {
        lemma_lacks_subrange(s, 1, s.len() as int, c);
        assert(s.subrange(1, s.len() as int) == s.drop_first());
        lemma_trim_start_lacks(s.drop_first(), c);
    }
}

proof fn lemma_trim_end_lacks(s: Seq<char>, c: char)
    requires
        lacks(s, c),
    ensures
        lacks(trim_end(s), c),
    decreases s.len(),
{
    if s.len() > 0 && is_ws(s.last()) {
        lemma_lacks_subrange(s, 0, s.len() - 1, c);
        assert(s.subrange(0, s.len() - 1) == s.drop_last());
        lemma_trim_end_lacks(s.drop_last(), c);
    }
}

proof fn lemma_trim_lacks(s: Seq<char>, c: char)
    requires
        lacks(s, c),
    ensures
        lacks(trim(s), c),
{
    lemma_trim_start_lacks(s, c);
    lemma_trim_end_lacks(trim_start(s), c);
}

// ---------------------------------------------------------------------------
// Trimming
// ---------------------------------------------------------------------------

proof fn lemma_trim_fixed(s: Seq<char>)
    requires
        s.len() > 0,
        !is_ws(s[0]),
        !is_ws(s.last()),
    ensures
        trim(s) == s,
{
}

proof fn lemma_trim_start_len(s: Seq<char>)
    ensures
        trim_start(s).len() <= s.len(),
        s.len() > 0 && is_ws(s[0]) ==> trim_start(s).len() < s.len(),
    decreases s.len(),
{
    if s.len() > 0 && is_ws(s[0]) {
        lemma_trim_start_len(s.drop_first());
    }
}

proof fn lemma_trim_end_len(s: Seq<char>)
    ensures
        trim_end(s).len() <= s.len(),
        s.len() > 0 && is_ws(s.last()) ==> trim_end(s).len() < s.len(),
    decreases s.len(),
{
    if s.len() > 0 && is_ws(s.last()) {
        lemma_trim_end_len(s.drop_last());
    }
}

/// A text that trimming leaves as it is starts and ends with non-whitespace.
proof fn lemma_trimmed_ends(s: Seq<char>)
    requires
        trim(s) == s,
        s.len() > 0,
    ensures
        !is_ws(s[0]),
        !is_ws(s.last()),
{
    lemma_trim_start_len(s);
    lemma_trim_end_len(trim_start(s));
    if !is_ws(s[0]) {
        assert(trim_start(s) == s);
        lemma_trim_end_len(s);
    }
}

proof fn lemma_trim_start_lower(s: Seq<char>)
    ensures
        trim_start(ascii_lower_seq(s)) == ascii_lower_seq(trim_start(s)),
    decreases s.len(),
{
    if s.len() > 0 {
        lemma_lower_char(s[0]);
        assert(ascii_lower_seq(s).drop_first() == ascii_lower_seq(s.drop_first()));
        lemma_trim_start_lower(s.drop_first());
    }
}

proof fn lemma_trim_end_lower(s: Seq<char>)
    ensures
        trim_end(ascii_lower_seq(s)) == ascii_lower_seq(trim_end(s)),
    decreases s.len(),
{
    if s.len() > 0 {
        lemma_lower_char(s.last());
        assert(ascii_lower_seq(s).drop_last() == ascii_lower_seq(s.drop_last()));
        lemma_trim_end_lower(s.drop_last());
    }
}

proof fn lemma_trim_lower(s: Seq<char>)
    ensures
        trim(ascii_lower_seq(s)) == ascii_lower_seq(trim(s)),
{
    lemma_trim_start_lower(s);
    lemma_trim_end_lower(trim_start(s));
}

// ---------------------------------------------------------------------------
// ASCII lower-casing
// ---------------------------------------------------------------------------

proof fn lemma_lower_char(c: char)
    ensures
        (ascii_lower(c) == '=') == (c == '='),
        (ascii_lower(c) == '/') == (c == '/'),
        (ascii_lower(c) == '[') == (c == '['),
        (ascii_lower(c) == ']') == (c == ']'),
        is_ws(ascii_lower(c)) == is_ws(c),
        ascii_lower(ascii_lower(c)) == ascii_lower(c),
{
}

proof fn lemma_lower_lacks(s: Seq<char>, c: char)
    requires
        lacks(s, c),
        c == '=' || c == '/' || c == '[',
    ensures
        lacks(ascii_lower_seq(s), c),
{
    assert forall|i: int| 0 <= i < s.len() implies ascii_lower_seq(s)[i] != c by {
        lemma_lower_char(s[i]);
    }
}

proof fn lemma_lower_idempotent(s: Seq<char>)
    ensures
        ascii_lower_seq(ascii_lower_seq(s)) == ascii_lower_seq(s),
{
    assert forall|i: int| 0 <= i < s.len() implies ascii_lower_seq(ascii_lower_seq(s))[i]
        == ascii_lower_seq(s)[i] by {
        lemma_lower_char(s[i]);
    }
    assert(ascii_lower_seq(ascii_lower_seq(s)) =~= ascii_lower_seq(s));
}

// ---------------------------------------------------------------------------
// Brackets
// ---------------------------------------------------------------------------

pub open spec fn is_bracket(c: char) -> bool {
    c == '[' || c == ']'
}

/// The brackets of `s`, in order.
pub open spec fn brackets(s: Seq<char>) -> Seq<char>
    decreases s.len(),
{
    if s.len() == 0 {
        Seq::empty()
    } else if is_bracket(s[0]) {
        seq![s[0]] + brackets(s.drop_first())
    } else {
        brackets(s.drop_first())
    }
}

proof fn lemma_brackets_concat(a: Seq<char>, b: Seq<char>)
    ensures
        brackets(a + b) == brackets(a) + brackets(b),
    decreases a.len(),
{
    if a.len() == 0 {
        assert(a + b == b);
    } else {
        assert((a + b)[0] == a[0]);
        assert((a + b).drop_first() == a.drop_first() + b);
        lemma_brackets_concat(a.drop_first(), b);
    }
}

proof fn lemma_brackets_plain(s: Seq<char>)
    requires
        forall|i: int| 0 <= i < s.len() ==> !is_bracket(#[trigger] s[i]),
    ensures
        brackets(s) == Seq::<char>::empty(),
    decreases s.len(),
{
    if s.len() > 0 {
        assert forall|i: int| 0 <= i < s.drop_first().len() implies !is_bracket(
            #[trigger] s.drop_first()[i],
        ) by {
            assert(s.drop_first()[i] == s[i + 1]);
        }
        lemma_brackets_plain(s.drop_first());
    }
}

proof fn lemma_brackets_trim(s: Seq<char>)
    ensures
        brackets(trim_start(s)) == brackets(s),
        brackets(trim_end(s)) == brackets(s),
        brackets(trim(s)) == brackets(s),
{
    lemma_brackets_trim_start(s);
    lemma_brackets_trim_end(s);
    lemma_brackets_trim_end(trim_start(s));
}

proof fn lemma_brackets_trim_start(s: Seq<char>)
    ensures
        brackets(trim_start(s)) == brackets(s),
    decreases s.len(),
{
    if s.len() > 0 && is_ws(s[0]) {
        lemma_brackets_trim_start(s.drop_first());
    }
}

proof fn lemma_brackets_trim_end(s: Seq<char>)
    ensures
        brackets(trim_end(s)) == brackets(s),
    decreases s.len(),
{
    if s.len() > 0 && is_ws(s.last()) {
        lemma_brackets_trim_end(s.drop_last());
        lemma_brackets_concat(s.drop_last(), seq![s.last()]);
        assert(s.drop_last() + seq![s.last()] == s);
        let w = seq![s.last()];
        assert(w[0] == s.last());
        lemma_brackets_plain(w);
    }
}

proof fn lemma_brackets_lower(s: Seq<char>)
    ensures
        brackets(ascii_lower_seq(s)) == brackets(s),
    decreases s.len(),
{
    if s.len() > 0 {
        lemma_lower_char(s[0]);
        assert(ascii_lower_seq(s).drop_first() == ascii_lower_seq(s.drop_first()));
        lemma_brackets_lower(s.drop_first());
    }
}

// ---------------------------------------------------------------------------
// Bracket depth
// ---------------------------------------------------------------------------

pub open spec fn step(c: char, d: int) -> int {
    if c == '[' {
        d + 1
    } else if c == ']' {
        d - 1
    } else {
        d
    }
}

/// Reading `s` from depth `d` meets a `]` at depth 1, which would close a predicate.
pub open spec fn closes_in(s: Seq<char>, d: int) -> bool
    decreases s.len(),
{
    s.len() > 0 && ((s[0] == ']' && d == 1) || closes_in(s.drop_first(), step(s[0], d)))
}

/// The depth after reading `s` from depth `d`.
pub open spec fn depth_after(s: Seq<char>, d: int) -> int
    decreases s.len(),
{
    if s.len() == 0 {
        d
    } else {
        depth_after(s.drop_first(), step(s[0], d))
    }
}

/// The text of a predicate: no `]` closes it early, and its brackets balance.
pub open spec fn balanced(s: Seq<char>) -> bool {
    !closes_in(s, 1) && depth_after(s, 1) == 1
}

proof fn lemma_walk_brackets(s: Seq<char>, d: int)
    ensures
        closes_in(s, d) == closes_in(brackets(s), d),
        depth_after(s, d) == depth_after(brackets(s), d),
    decreases s.len(),
{
    if s.len() > 0 {
        lemma_walk_brackets(s.drop_first(), step(s[0], d));
        if is_bracket(s[0]) {
            let b = brackets(s);
            assert(b[0] == s[0]);
            assert(b.drop_first() == brackets(s.drop_first()));
        }
    }
}

proof fn lemma_balanced_brackets(a: Seq<char>, b: Seq<char>)
    requires
        brackets(a) == brackets(b),
        balanced(a),
    ensures
        balanced(b),
{
    lemma_walk_brackets(a, 1);
    lemma_walk_brackets(b, 1);
}

proof fn lemma_close_shift(s: Seq<char>, t: Seq<char>, d: int)
    requires
        !closes_in(s, d),
    ensures
        close_index(s + t, d) == match close_index(t, depth_after(s, d)) {
            Some(k) => Some(k + s.len()),
            None => None::<int>,
        },
    decreases s.len(),
{
    if s.len() == 0 {
        assert(s + t == t);
    } else {
        assert((s + t)[0] == s[0]);
        assert((s + t).drop_first() == s.drop_first() + t);
        lemma_close_shift(s.drop_first(), t, step(s[0], d));
    }
}

proof fn lemma_close_found(s: Seq<char>, d: int)
    requires
        close_index(s, d) is Some,
    ensures
        0 <= close_index(s, d)->0 < s.len(),
        s[close_index(s, d)->0] == ']',
        !closes_in(s.take(close_index(s, d)->0), d),
        depth_after(s.take(close_index(s, d)->0), d) == 1,
    decreases s.len(),
{
    let k = close_index(s, d)->0;
    if s[0] == ']' && d == 1 {
        assert(s.take(0).len() == 0);
    } else {
        let d2 = step(s[0], d);
        lemma_close_found(s.drop_first(), d2);
        let t = s.take(k);
        assert(t[0] == s[0]);
        assert(t.drop_first() == s.drop_first().take(k - 1));
    }
}

/// A balanced predicate text followed by `]` is closed exactly there.
proof fn lemma_close_after(p: Seq<char>, rest: Seq<char>)
    requires
        balanced(p),
    ensures
        close_index(p + (seq![']'] + rest), 1) == Some(p.len() as int),
{
    lemma_close_shift(p, seq![']'] + rest, 1);
    assert((seq![']'] + rest)[0] == ']');
}

proof fn lemma_brackets_single(c: char)
    requires
        !is_bracket(c),
    ensures
        brackets(seq![c]) == Seq::<char>::empty(),
{
    assert(seq![c][0] == c);
    lemma_brackets_plain(seq![c]);
}

proof fn lemma_lacks_single(c: char, d: char)
    requires
        c != d,
    ensures
        lacks(seq![c], d),
{
    assert(seq![c][0] == c);
}

// ---------------------------------------------------------------------------
// Splitting at a character
// ---------------------------------------------------------------------------

proof fn lemma_split_parts(s: Seq<char>, c: char)
    ensures
        match split_once(s, c) {
            Some((a, b)) => s == a + (seq![c] + b) && lacks(a, c),
            None => true,
        },
{
    lemma_first_index(s, c);
    if first_index(s, c) is Some {
        let i = first_index(s, c)->0;
        assert(s =~= s.take(i) + (seq![c] + s.skip(i + 1)));
        assert forall|k: int| 0 <= k < i implies s.take(i)[k] != c by {
            assert(s.take(i)[k] == s[k]);
        }
    }
}

proof fn lemma_split_at(a: Seq<char>, b: Seq<char>, c: char)
    requires
        lacks(a, c),
    ensures
        split_once(a + (seq![c] + b), c) == Some((a, b)),
{
    let s = a + (seq![c] + b);
    assert(s[a.len() as int] == c);
    assert forall|k: int| 0 <= k < a.len() implies #[trigger] s[k] != c by {
        assert(s[k] == a[k]);
    }
    lemma_first_index_at(s, c, a.len() as int);
    assert(s.take(a.len() as int) =~= a);
    assert(s.skip(a.len() as int + 1) =~= b);
}

// ---------------------------------------------------------------------------
// Predicates
// ---------------------------------------------------------------------------

/// The key that a predicate's text names.
pub open spec fn pred_key(p: PredicateView) -> Seq<char> {
    match p {
        PredicateView::NameEquals(_) => name_word(),
        PredicateView::RoleEquals(_) => role_word(),
        PredicateView::AttributeEquals(k, _) => k,
    }
}

pub open spec fn pred_value(p: PredicateView) -> Seq<char> {
    match p {
        PredicateView::NameEquals(v) => v,
        PredicateView::RoleEquals(v) => v,
        PredicateView::AttributeEquals(_, v) => v,
    }
}

/// A predicate whose text reads back as itself, is balanced and holds no `/`.
pub open spec fn pred_good(p: PredicateView) -> bool {
    &&& parse_predicate_spec(pred_text(p)) == Ok::<PredicateView, XPathErrorView>(p)
    &&& balanced(pred_text(p))
    &&& lacks(pred_text(p), '/')
}

proof fn lemma_pred_good(raw: Seq<char>, p: PredicateView)
    requires
        parse_predicate_spec(raw) == Ok::<PredicateView, XPathErrorView>(p),
        lacks(raw, '/'),
        balanced(raw),
    ensures
        pred_good(p),
{
    let t = trim(raw);
    let body = t.drop_first();
    lemma_split_parts(body, '=');
    let (lhs, rhs) = split_once(body, '=')->0;
    let q = trim(rhs);
    let value = parse_quoted_spec(q)->0;
    let u = trim(lhs);
    let key = ascii_lower_seq(u);
    assert(q =~= seq!['\''] + value + seq!['\'']);
    assert(quoted_value(value) == q);
    assert(pred_key(p) == key && pred_value(p) == value);
    let tx = pred_text(p);
    assert(tx =~= seq!['@'] + key + (seq!['='] + q));

    // The text reads back as the same predicate.
    lemma_trim_lacks(lhs, '=');
    lemma_lower_lacks(u, '=');
    lemma_trim_fixed(tx);
    assert(tx.drop_first() =~= key + (seq!['='] + q));
    lemma_split_at(key, q, '=');
    lemma_trim_fixed(q);
    lemma_trim_lower(u);
    crate::attributes::lemma_trim_idempotent(lhs);
    lemma_lower_idempotent(u);
    assert(ascii_lower_seq(trim(key)) == key);

    // Its brackets are those of `raw`.
    lemma_brackets_trim(raw);
    assert(t =~= seq!['@'] + body);
    lemma_brackets_concat(seq!['@'], body);
    lemma_brackets_single('@');
    lemma_brackets_concat(lhs, seq!['='] + rhs);
    lemma_brackets_concat(seq!['='], rhs);
    lemma_brackets_single('=');
    lemma_brackets_concat(seq!['@'], key + (seq!['='] + q));
    lemma_brackets_concat(key, seq!['='] + q);
    lemma_brackets_concat(seq!['='], q);
    lemma_brackets_lower(u);
    lemma_brackets_trim(lhs);
    lemma_brackets_trim(rhs);
    assert(brackets(tx) == brackets(raw));
    lemma_balanced_brackets(raw, tx);

    // It holds no '/'.
    lemma_trim_lacks(raw, '/');
    lemma_lacks_subrange(t, 1, t.len() as int, '/');
    assert(t.subrange(1, t.len() as int) == body);
    lemma_lacks_concat(lhs, seq!['='] + rhs, '/');
    lemma_lacks_concat(seq!['='], rhs, '/');
    lemma_trim_lacks(lhs, '/');
    lemma_lower_lacks(u, '/');
    lemma_trim_lacks(rhs, '/');
    lemma_lacks_single('@', '/');
    lemma_lacks_single('=', '/');
    lemma_lacks_concat(seq!['='], q, '/');
    lemma_lacks_concat(key, seq!['='] + q, '/');
    lemma_lacks_concat(seq!['@'], key + (seq!['='] + q), '/');
}

proof fn lemma_pred_text_ends(p: PredicateView)
    ensures
        pred_text(p).len() > 1,
        pred_text(p)[0] == '@',
        pred_text(p).last() == '\'',
{
    let tx = seq!['@'] + pred_key(p) + (seq!['='] + quoted_value(pred_value(p)));
    assert(pred_text(p) =~= tx);
}

// ---------------------------------------------------------------------------
// Segments
// ---------------------------------------------------------------------------

/// A segment whose text reads back as itself: a name (if any) that is trimmed, not
/// empty, not `*`, and holds no `[` or `/`, and well-behaved predicates.
pub open spec fn seg_good(s: SegmentView) -> bool {
    &&& (s.name matches Some(n) ==> n.len() > 0 && trim(n) == n && n != seq!['*'] && lacks(
        n,
        '[',
    ) && lacks(n, '/'))
    &&& forall|i: int| 0 <= i < s.predicates.len() ==> pred_good(#[trigger] s.predicates[i])
}

proof fn lemma_scan_good(s: Seq<char>)
    requires
        lacks(s, '/'),
    ensures
        match scan_segment(s) {
            Ok((nm, ps)) => lacks(nm, '[') && lacks(nm, '/') && forall|i: int|
                0 <= i < ps.len() ==> pred_good(#[trigger] ps[i]),
            Err(_) => true,
        },
    decreases s.len(),
{
    if s.len() == 0 {
    } else if s[0] == '[' {
        let rest = s.drop_first();
        lemma_lacks_subrange(s, 1, s.len() as int, '/');
        assert(s.subrange(1, s.len() as int) == rest);
        if close_index(rest, 1) is Some {
            let k = close_index(rest, 1)->0;
            if 0 <= k < rest.len() {
                let piece = rest.take(k);
                let raw = trim(piece);
                if parse_predicate_spec(raw) is Ok {
                    let p = parse_predicate_spec(raw)->Ok_0;
                    lemma_close_found(rest, 1);
                    lemma_brackets_trim(piece);
                    lemma_balanced_brackets(piece, raw);
                    lemma_lacks_subrange(rest, 0, k, '/');
                    assert(rest.subrange(0, k) == piece);
                    lemma_trim_lacks(piece, '/');
                    lemma_pred_good(raw, p);
                    let tail = rest.skip(k + 1);
                    lemma_lacks_subrange(rest, k + 1, rest.len() as int, '/');
                    assert(rest.subrange(k + 1, rest.len() as int) == tail);
                    lemma_scan_good(tail);
                    if scan_segment(tail) is Ok {
                        let (nm, ps) = scan_segment(tail)->Ok_0;
                        let all = seq![p] + ps;
                        assert forall|j: int| 0 <= j < all.len() implies pred_good(
                            #[trigger] all[j],
                        ) by {
                            if j > 0 {
                                assert(all[j] == ps[j - 1]);
                            }
                        }
                    }
                }
            }
        }
    } else {
        let rest = s.drop_first();
        lemma_lacks_subrange(s, 1, s.len() as int, '/');
        assert(s.subrange(1, s.len() as int) == rest);
        lemma_scan_good(rest);
        if scan_segment(rest) is Ok {
            let (nm, ps) = scan_segment(rest)->Ok_0;
            lemma_lacks_single(s[0], '[');
            lemma_lacks_single(s[0], '/');
            lemma_lacks_concat(seq![s[0]], nm, '[');
            lemma_lacks_concat(seq![s[0]], nm, '/');
        }
    }
}

proof fn lemma_seg_good(raw: Seq<char>)
    requires
        lacks(raw, '/'),
        parse_segment_spec(raw) is Ok,
    ensures
        seg_good(parse_segment_spec(raw)->Ok_0),
{
    lemma_scan_good(raw);
    let (nm, ps) = scan_segment(raw)->Ok_0;
    lemma_trim_lacks(nm, '[');
    lemma_trim_lacks(nm, '/');
    crate::attributes::lemma_trim_idempotent(nm);
}

proof fn lemma_preds_front(ps: Seq<PredicateView>)
    requires
        ps.len() > 0,
    ensures
        preds_text(ps) == seq!['['] + (pred_text(ps[0]) + (seq![']'] + preds_text(
            ps.drop_first(),
        ))),
    decreases ps.len(),
{
    if ps.len() == 1 {
        assert(ps.drop_last().len() == 0);
        assert(ps.drop_first().len() == 0);
        assert(preds_text(ps.drop_last()) == Seq::<char>::empty());
        assert(preds_text(ps.drop_first()) == Seq::<char>::empty());
        assert(preds_text(ps) == preds_text(ps.drop_last()) + seq!['['] + pred_text(ps.last())
            + seq![']']);
        assert(preds_text(ps) =~= seq!['['] + (pred_text(ps[0]) + (seq![']'] + preds_text(
            ps.drop_first(),
        ))));
    } else {
        let dl = ps.drop_last();
        let df = ps.drop_first();
        lemma_preds_front(dl);
        assert(dl[0] == ps[0]);
        assert(dl.drop_first() == df.drop_last());
        assert(df.last() == ps.last());
        assert(preds_text(ps) == preds_text(dl) + seq!['['] + pred_text(ps.last()) + seq![']']);
        assert(preds_text(df) == preds_text(df.drop_last()) + seq!['['] + pred_text(df.last())
            + seq![']']);
        assert(preds_text(ps) =~= seq!['['] + (pred_text(ps[0]) + (seq![']'] + preds_text(df))));
    }
}

proof fn lemma_preds_lacks(ps: Seq<PredicateView>)
    requires
        forall|i: int| 0 <= i < ps.len() ==> pred_good(#[trigger] ps[i]),
    ensures
        lacks(preds_text(ps), '/'),
    decreases ps.len(),
{
    if ps.len() > 0 {
        let dl = ps.drop_last();
        assert forall|i: int| 0 <= i < dl.len() implies pred_good(#[trigger] dl[i]) by {
            assert(dl[i] == ps[i]);
        }
        lemma_preds_lacks(dl);
        assert(pred_good(ps[ps.len() - 1]));
        lemma_lacks_single('[', '/');
        lemma_lacks_single(']', '/');
        lemma_lacks_concat(preds_text(dl), seq!['['], '/');
        lemma_lacks_concat(preds_text(dl) + seq!['['], pred_text(ps.last()), '/');
        lemma_lacks_concat(preds_text(dl) + seq!['['] + pred_text(ps.last()), seq![']'], '/');
    }
}

proof fn lemma_scan_preds(ps: Seq<PredicateView>)
    requires
        forall|i: int| 0 <= i < ps.len() ==> pred_good(#[trigger] ps[i]),
    ensures
        scan_segment(preds_text(ps)) == Ok::<(Seq<char>, Seq<PredicateView>), ScanError>(
            (Seq::empty(), ps),
        ),
    decreases ps.len(),
{
    if ps.len() == 0 {
        assert(ps =~= Seq::<PredicateView>::empty());
    } else {
        let df = ps.drop_first();
        assert forall|i: int| 0 <= i < df.len() implies pred_good(#[trigger] df[i]) by {
            assert(df[i] == ps[i + 1]);
        }
        lemma_scan_preds(df);
        lemma_preds_front(ps);
        let tx = pred_text(ps[0]);
        assert(pred_good(ps[0]));
        let rest_text = preds_text(df);
        let s = preds_text(ps);
        let rest = s.drop_first();
        assert(rest =~= tx + (seq![']'] + rest_text));
        lemma_close_after(tx, rest_text);
        assert(rest.take(tx.len() as int) =~= tx);
        lemma_pred_text_ends(ps[0]);
        lemma_trim_fixed(tx);
        assert(rest.skip(tx.len() as int + 1) =~= rest_text);
        assert(seq![ps[0]] + df =~= ps);
    }
}

proof fn lemma_scan_named(nm: Seq<char>, ps: Seq<PredicateView>)
    requires
        lacks(nm, '['),
        forall|i: int| 0 <= i < ps.len() ==> pred_good(#[trigger] ps[i]),
    ensures
        scan_segment(nm + preds_text(ps)) == Ok::<(Seq<char>, Seq<PredicateView>), ScanError>(
            (nm, ps),
        ),
    decreases nm.len(),
{
    if nm.len() == 0 {
        assert(nm + preds_text(ps) =~= preds_text(ps));
        lemma_scan_preds(ps);
        assert(nm =~= Seq::<char>::empty());
    } else {
        let s = nm + preds_text(ps);
        assert(s[0] == nm[0]);
        assert(s.drop_first() =~= nm.drop_first() + preds_text(ps));
        lemma_lacks_subrange(nm, 1, nm.len() as int, '[');
        assert(nm.subrange(1, nm.len() as int) == nm.drop_first());
        lemma_scan_named(nm.drop_first(), ps);
        assert(seq![nm[0]] + nm.drop_first() =~= nm);
    }
}

/// The head of a segment's text: its name, or `*`.
pub open spec fn seg_head(s: SegmentView) -> Seq<char> {
    match s.name {
        Some(n) => n,
        None => seq!['*'],
    }
}

proof fn lemma_seg_round(seg: SegmentView)
    requires
        seg_good(seg),
    ensures
        parse_segment_spec(seg_text(seg)) == Ok::<SegmentView, XPathErrorView>(seg),
        lacks(seg_text(seg), '/'),
        seg_text(seg).len() > 0,
        trim(seg_text(seg)) == seg_text(seg),
{
    let head = seg_head(seg);
    let ps = seg.predicates;
    let tx = seg_text(seg);
    assert(tx == head + preds_text(ps));
    if seg.name is None {
        lemma_lacks_single('*', '[');
        lemma_lacks_single('*', '/');
        lemma_trim_fixed(head);
    } else {
        lemma_trimmed_ends(head);
    }
    lemma_scan_named(head, ps);
    lemma_preds_lacks(ps);
    lemma_lacks_concat(head, preds_text(ps), '/');
    assert(tx[0] == head[0]);
    if ps.len() > 0 {
        assert(preds_text(ps).last() == ']');
        assert(tx.last() == ']');
    } else {
        assert(tx =~= head);
    }
    lemma_trim_fixed(tx);
}

// ---------------------------------------------------------------------------
// Paths
// ---------------------------------------------------------------------------

proof fn lemma_segs_front(segs: Seq<SegmentView>)
    requires
        segs.len() >= 2,
    ensures
        segs_text(segs) == seg_text(segs[0]) + (seq!['/'] + segs_text(segs.drop_first())),
    decreases segs.len(),
{
    let dl = segs.drop_last();
    let df = segs.drop_first();
    assert(segs_text(segs) == segs_text(dl) + seq!['/'] + seg_text(segs.last()));
    if segs.len() == 2 {
        assert(dl.len() == 1 && dl[0] == segs[0]);
        assert(df.len() == 1 && df[0] == segs[1]);
        assert(segs_text(dl) == seg_text(segs[0]));
        assert(segs_text(df) == seg_text(segs[1]));
    } else {
        lemma_segs_front(dl);
        assert(dl[0] == segs[0]);
        assert(dl.drop_first() == df.drop_last());
        assert(df.last() == segs.last());
        assert(segs_text(df) == segs_text(df.drop_last()) + seq!['/'] + seg_text(df.last()));
    }
    assert(segs_text(segs) =~= seg_text(segs[0]) + (seq!['/'] + segs_text(df)));
}

proof fn lemma_segs_round(segs: Seq<SegmentView>)
    requires
        segs.len() > 0,
        forall|i: int| 0 <= i < segs.len() ==> seg_good(#[trigger] segs[i]),
    ensures
        parse_segments_spec(segs_text(segs)) == Ok::<Seq<SegmentView>, XPathErrorView>(segs),
    decreases segs.len(),
{
    let first = segs[0];
    assert(seg_good(first));
    lemma_seg_round(first);
    let a = seg_text(first);
    if segs.len() == 1 {
        let s = segs_text(segs);
        assert(s == a);
        lemma_first_index(s, '/');
        assert(seq![first] + Seq::<SegmentView>::empty() =~= segs);
    } else {
        let df = segs.drop_first();
        assert forall|i: int| 0 <= i < df.len() implies seg_good(#[trigger] df[i]) by {
            assert(df[i] == segs[i + 1]);
        }
        lemma_segs_round(df);
        lemma_segs_front(segs);
        let s = segs_text(segs);
        assert(s[a.len() as int] == '/');
        assert forall|k: int| 0 <= k < a.len() implies #[trigger] s[k] != '/' by {
            assert(s[k] == a[k]);
        }
        lemma_first_index_at(s, '/', a.len() as int);
        assert(s.take(a.len() as int) =~= a);
        assert(s.skip(a.len() as int + 1) =~= segs_text(df));
        assert(seq![first] + df =~= segs);
    }
}

proof fn lemma_segs_good(s: Seq<char>)
    requires
        parse_segments_spec(s) is Ok,
    ensures
        forall|i: int|
            0 <= i < parse_segments_spec(s)->Ok_0.len() ==> seg_good(
                #[trigger] parse_segments_spec(s)->Ok_0[i],
            ),
    decreases s.len(),
{
    lemma_first_index(s, '/');
    let part = match first_index(s, '/') {
        Some(i) => s.take(i),
        None => s,
    };
    assert forall|k: int| 0 <= k < part.len() implies part[k] != '/' by {
        assert(part[k] == s[k]);
    }
    lemma_trim_lacks(part, '/');
    if first_index(s, '/') is Some {
        let i = first_index(s, '/')->0;
        if parse_segments_spec(s.skip(i + 1)) is Ok {
            lemma_segs_good(s.skip(i + 1));
        }
    }
    if trim(part).len() > 0 {
        lemma_seg_good(trim(part));
    }
}

/// Writing a parsed path back as text and parsing that text gives the same path.
pub proof fn law_xpath_text_round_trip(raw: Seq<char>)
    requires
        parse_xpath_spec(raw) is Ok,
    ensures
        parse_xpath_spec(path_text(parse_xpath_spec(raw)->Ok_0)) == parse_xpath_spec(raw),
{
    let segs = parse_xpath_spec(raw)->Ok_0;
    lemma_segs_good(raw.drop_first());
    lemma_segs_round(segs);
    let tx = path_text(segs);
    assert(tx[0] == '/');
    assert(tx.drop_first() =~= segs_text(segs));
}

} // verus!
