//! Which node attributes the tree output shows.
use vstd::prelude::*;

use crate::text::{eq_ignore_ascii_case, eq_ignore_case, trim, trim_str, is_ws, trim_start, trim_end};

verus! {

/// Preset attribute sets that can be selected from the command line.
#[derive(PartialEq, Eq, Structural, Clone, Copy, Debug)]
pub enum AttributeSet {
    /// Emit no attributes at all (but the additional ones).
    Nothing,
    /// Emit a curated list of attributes that are commonly useful for UI automation.
    Essential,
    /// Emit every attribute captured for the node.
    Full,
}

impl Default for AttributeSet {
    fn default() -> (r: Self)
        ensures
            r == AttributeSet::Essential,
    {
        AttributeSet::Essential
    }
}

/// The attribute set and the extra keys to show.
#[derive(Debug)]
pub struct AttributeConfig {
    pub set: AttributeSet,
    /// Extra keys: trimmed, non-empty, no two equal up to ASCII case.
    pub additional: Vec<String>,
}

impl Default for AttributeConfig {
    fn default() -> (r: Self)
        ensures
            r.set == AttributeSet::Essential,
            r.additional@.len() == 0,
    {
        AttributeConfig { set: AttributeSet::Essential, additional: Vec::new() }
    }
}

/// The keys that the essential set shows, in display order.
pub open spec fn essential_spec() -> Seq<Seq<char>> {
    seq![
        "AutomationId"@,
        "Name"@,
        "ControlType"@,
        "ClassName"@,
        "FrameworkId"@,
        "BoundingRectangle"@,
        "IsEnabled"@,
        "IsOffscreen"@,
    ]
}

/// The keys of the essential attribute set, in display order.
pub fn essential_attributes() -> (r: Vec<String>)
    ensures
        r@.map_values(|s: String| s@) == essential_spec(),
{
    let v = vec![
        String::from_str("AutomationId"),
        String::from_str("Name"),
        String::from_str("ControlType"),
        String::from_str("ClassName"),
        String::from_str("FrameworkId"),
        String::from_str("BoundingRectangle"),
        String::from_str("IsEnabled"),
        String::from_str("IsOffscreen"),
    ];
    assert(v@.map_values(|s: String| s@) =~= essential_spec());
    v
}

/// Some entry of `s` equals `t` up to ASCII case.
pub open spec fn has_ci(s: Seq<Seq<char>>, t: Seq<char>) -> bool {
    exists|i: int| 0 <= i < s.len() && eq_ignore_case(#[trigger] s[i], t)
}

/// The extra keys as `AttributeConfig::new` keeps them: each trimmed, blank ones
/// dropped, and a key dropped when an earlier kept key equals it up to ASCII case.
pub open spec fn normalize_keys(s: Seq<Seq<char>>) -> Seq<Seq<char>>
    decreases s.len(),
{
    if s.len() == 0 {
        Seq::empty()
    } else {
        let prev = normalize_keys(s.drop_last());
        let t = trim(s.last());
        if t.len() == 0 || has_ci(prev, t) {
            prev
        } else {
            prev.push(t)
        }
    }
}

pub open spec fn strings_view(v: Seq<String>) -> Seq<Seq<char>> {
    v.map_values(|s: String| s@)
}

impl AttributeConfig {
    /// A configuration whose extra keys are `additional` normalized: trimmed, blank
    /// keys dropped, later duplicates (up to ASCII case) dropped.
    pub fn new(set: AttributeSet, additional: Vec<String>) -> (r: Self)
        ensures
            r.set == set,
            strings_view(r.additional@) == normalize_keys(strings_view(additional@)),
    {
        let ghost input = strings_view(additional@);
        let mut normalized: Vec<String> = Vec::new();
        let mut i: usize = 0;
        while i < additional.len()
            invariant
                i <= additional.len(),
                input == strings_view(additional@),
                strings_view(normalized@) == normalize_keys(input.take(i as int)),
            decreases additional.len() - i,
        {
            let trimmed = trim_str(additional[i].as_str());
            let ghost prev = strings_view(normalized@);
            assert(input.take(i + 1).drop_last() =~= input.take(i as int));
            assert(input[i as int] == additional@[i as int]@);
            if trimmed.as_str().is_empty() {
            } else {
                let mut found = false;
                let mut j: usize = 0;
                while j < normalized.len()
                    invariant
                        j <= normalized.len(),
                        prev == strings_view(normalized@),
                        found == exists|k: int| 0 <= k < j && eq_ignore_case(#[trigger] prev[k], trimmed@),
                    decreases normalized.len() - j,
                {
                    if eq_ignore_ascii_case(normalized[j].as_str(), trimmed.as_str()) {
                        assert(eq_ignore_case(prev[j as int], trimmed@));
                        found = true;
                    }
                    j = j + 1;
                }
                assert(found == has_ci(prev, trimmed@));
                if !found {
                    normalized.push(trimmed);
                    assert(strings_view(normalized@) =~= prev.push(trimmed@));
                }
            }
            i = i + 1;
        }
        assert(input.take(additional.len() as int) =~= input);
        AttributeConfig { set, additional: normalized }
    }
}

// ---------------------------------------------------------------------------
// Laws
// ---------------------------------------------------------------------------

proof fn lemma_trim_start_fixed(z: Seq<char>)
    requires
        z.len() == 0 || !is_ws(z[0]),
    ensures
        trim_start(z) == z,
{
}

proof fn lemma_trim_end_keeps_first(y: Seq<char>)
    requires
        y.len() > 0,
        !is_ws(y[0]),
    ensures
        trim_end(y).len() > 0 && trim_end(y)[0] == y[0],
    decreases y.len(),
{
    if is_ws(y.last()) {
        assert(y.len() > 1);
        assert(y.drop_last()[0] == y[0]);
        lemma_trim_end_keeps_first(y.drop_last());
    }
}

proof fn lemma_trim_end_idempotent(y: Seq<char>)
    ensures
        trim_end(trim_end(y)) == trim_end(y),
    decreases y.len(),
{
    if y.len() > 0 && is_ws(y.last()) {
        lemma_trim_end_idempotent(y.drop_last());
    }
}

proof fn lemma_trim_start_idempotent(y: Seq<char>)
    ensures
        trim_start(trim_start(y)) == trim_start(y),
    decreases y.len(),
{
    if y.len() > 0 && is_ws(y[0]) {
        lemma_trim_start_idempotent(y.drop_first());
    }
}

proof fn lemma_trim_start_first(x: Seq<char>)
    ensures
        trim_start(x).len() == 0 || !is_ws(trim_start(x)[0]),
    decreases x.len(),
{
    if x.len() > 0 && is_ws(x[0]) {
        lemma_trim_start_first(x.drop_first());
    }
}

/// Trimming twice is trimming once.
pub proof fn lemma_trim_idempotent(x: Seq<char>)
    ensures
        trim(trim(x)) == trim(x),
{
    let y = trim_start(x);
    lemma_trim_start_idempotent(x);
    let z = trim_end(y);
    if z.len() > 0 {
        assert(y.len() > 0) by {
            if y.len() == 0 {
                assert(trim_end(y) == y);
            }
        }
        lemma_trim_start_first(x);
        lemma_trim_end_keeps_first(y);
    }
    lemma_trim_start_fixed(z);
    lemma_trim_end_idempotent(y);
}

/// The keys are each trimmed and non-blank, and no two are equal up to ASCII case.
pub open spec fn keys_normal(s: Seq<Seq<char>>) -> bool {
    &&& forall|i: int| 0 <= i < s.len() ==> trim(#[trigger] s[i]) == s[i] && s[i].len() > 0
    &&& forall|i: int, j: int|
        0 <= i < j < s.len() ==> !eq_ignore_case(#[trigger] s[i], #[trigger] s[j])
}

/// The extra keys of a configuration are trimmed, non-blank and free of duplicates up
/// to ASCII case.
pub proof fn law_normalized_keys_are_clean(s: Seq<Seq<char>>)
    ensures
        keys_normal(normalize_keys(s)),
    decreases s.len(),
{
    if s.len() > 0 {
        law_normalized_keys_are_clean(s.drop_last());
        let prev = normalize_keys(s.drop_last());
        let t = trim(s.last());
        lemma_trim_idempotent(s.last());
        if !(t.len() == 0 || has_ci(prev, t)) {
            let r = prev.push(t);
            assert forall|i: int, j: int| 0 <= i < j < r.len() implies !eq_ignore_case(
                #[trigger] r[i],
                #[trigger] r[j],
            ) by {
                if j == r.len() - 1 {
                    assert(r[i] == prev[i]);
                    if eq_ignore_case(r[i], r[j]) {
                        assert(eq_ignore_case(prev[i], t));
                    }
                }
            }
        }
    }
}

proof fn lemma_normalize_clean_fixed(s: Seq<Seq<char>>)
    requires
        keys_normal(s),
    ensures
        normalize_keys(s) == s,
    decreases s.len(),
{
    if s.len() > 0 {
        let p = s.drop_last();
        assert(keys_normal(p)) by {
            assert forall|i: int| 0 <= i < p.len() implies trim(#[trigger] p[i]) == p[i] && p[i].len() > 0 by {
                assert(p[i] == s[i]);
            }
            assert forall|i: int, j: int| 0 <= i < j < p.len() implies !eq_ignore_case(#[trigger] p[i], #[trigger] p[j]) by {
                assert(p[i] == s[i]);
                assert(p[j] == s[j]);
            }
        }
        lemma_normalize_clean_fixed(p);
        let t = trim(s.last());
        assert(t == s.last());
        assert(!has_ci(p, t)) by {
            if has_ci(p, t) {
                let i = choose|i: int| 0 <= i < p.len() && eq_ignore_case(#[trigger] p[i], t);
                assert(p[i] == s[i]);
                assert(!eq_ignore_case(s[i], s[s.len() - 1]));
            }
        }
        assert(p.push(t) =~= s);
    }
}

/// Normalizing the extra keys a second time changes nothing: building a configuration
/// from the keys of another gives the same keys.
pub proof fn law_normalize_keys_idempotent(s: Seq<Seq<char>>)
    ensures
        normalize_keys(normalize_keys(s)) == normalize_keys(s),
{
    law_normalized_keys_are_clean(s);
    lemma_normalize_clean_fixed(normalize_keys(s));
}

/// Normalizing drops no key: every non-blank key, once trimmed, is among the normalized
/// keys up to ASCII case.
pub proof fn law_normalize_keeps_every_key(s: Seq<Seq<char>>, i: int)
    requires
        0 <= i < s.len(),
        trim(s[i]).len() > 0,
    ensures
        has_ci(normalize_keys(s), trim(s[i])),
    decreases s.len(),
{
    let prev = normalize_keys(s.drop_last());
    let t = trim(s.last());
    if i == s.len() - 1 {
        if !has_ci(prev, t) {
            let r = prev.push(t);
            assert(r[prev.len() as int] == t);
            assert(eq_ignore_case(r[prev.len() as int], t));
        }
    } else {
        assert(s.drop_last()[i] == s[i]);
        law_normalize_keeps_every_key(s.drop_last(), i);
        let j = choose|j: int| 0 <= j < prev.len() && eq_ignore_case(#[trigger] prev[j], trim(s[i]));
        if !(t.len() == 0 || has_ci(prev, t)) {
            assert(prev.push(t)[j] == prev[j]);
        }
    }
}

} // verus!
