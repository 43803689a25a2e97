//! Key/value vectors kept in ascending key order with no key twice: the ordered maps
//! that hold node attributes and properties.
use vstd::prelude::*;

use crate::text::chars_of;

verus! {

/// Lexicographic order of character sequences, by code point. For UTF-8 strings this is
/// the order of `String`'s `Ord`, byte by byte.
pub open spec fn seq_lt(a: Seq<char>, b: Seq<char>) -> bool
    decreases a.len(),
{
    if a.len() == 0 {
        b.len() > 0
    } else if b.len() == 0 {
        false
    } else if a[0] < b[0] {
        true
    } else if a[0] == b[0] {
        seq_lt(a.drop_first(), b.drop_first())
    } else {
        false
    }
}

pub proof fn lemma_seq_lt_irreflexive(a: Seq<char>)
    ensures
        !seq_lt(a, a),
    decreases a.len(),
{
    if a.len() > 0 {
        lemma_seq_lt_irreflexive(a.drop_first());
    }
}

pub proof fn lemma_seq_lt_transitive(a: Seq<char>, b: Seq<char>, c: Seq<char>)
    requires
        seq_lt(a, b),
        seq_lt(b, c),
    ensures
        seq_lt(a, c),
    decreases a.len(),
{
    if a.len() > 0 && b.len() > 0 && c.len() > 0 {
        if a[0] == b[0] && b[0] == c[0] {
            lemma_seq_lt_transitive(a.drop_first(), b.drop_first(), c.drop_first());
        }
    }
}

pub proof fn lemma_seq_lt_total(a: Seq<char>, b: Seq<char>)
    ensures
        seq_lt(a, b) || seq_lt(b, a) || a == b,
    decreases a.len(),
{
    if a.len() > 0 && b.len() > 0 {
        lemma_seq_lt_total(a.drop_first(), b.drop_first());
        if a[0] == b[0] && a.drop_first() == b.drop_first() {
            assert(a =~= seq![a[0]] + a.drop_first());
            assert(b =~= seq![b[0]] + b.drop_first());
        }
    } else if a.len() == 0 && b.len() == 0 {
        assert(a =~= b);
    }
}

/// Exec comparison of two strings in `seq_lt` order.
pub fn str_lt(a: &str, b: &str) -> (r: bool)
    ensures
        r == seq_lt(a@, b@),
{
    let x = chars_of(a);
    let y = chars_of(b);
    let mut i: usize = 0;
    assert(x@.skip(0) =~= x@);
    assert(y@.skip(0) =~= y@);
    while i < x.len() && i < y.len() && x[i] == y[i]
        invariant
            i <= x.len(),
            i <= y.len(),
            x@ == a@,
            y@ == b@,
            seq_lt(a@, b@) == seq_lt(x@.skip(i as int), y@.skip(i as int)),
        decreases x.len() - i,
    {
        proof {
            let xs = x@.skip(i as int);
            let ys = y@.skip(i as int);
            assert(xs.drop_first() == x@.skip(i + 1));
            assert(ys.drop_first() == y@.skip(i + 1));
        }
        i = i + 1;
    }
    let ghost xs = x@.skip(i as int);
    let ghost ys = y@.skip(i as int);
    if i == x.len() {
        assert(xs.len() == 0);
        i < y.len()
    } else if i == y.len() {
        false
    } else {
        assert(xs[0] == x@[i as int]);
        assert(ys[0] == y@[i as int]);
        x[i] < y[i]
    }
}

/// The keys appear in strictly ascending order (so no key appears twice).
pub open spec fn keys_sorted<V>(s: Seq<(Seq<char>, V)>) -> bool {
    forall|i: int, j: int| 0 <= i < j < s.len() ==> seq_lt(#[trigger] s[i].0, #[trigger] s[j].0)
}

/// The value stored under `key`: that of the first entry with this key.
pub open spec fn lookup<V>(s: Seq<(Seq<char>, V)>, key: Seq<char>) -> Option<V>
    decreases s.len(),
{
    if s.len() == 0 {
        None
    } else if s[0].0 == key {
        Some(s[0].1)
    } else {
        lookup(s.drop_first(), key)
    }
}

/// The mathematical form of a key/value vector.
pub open spec fn pairs_view<V: View>(s: Seq<(String, V)>) -> Seq<(Seq<char>, V::V)> {
    s.map_values(|p: (String, V)| (p.0@, p.1@))
}

pub proof fn lemma_lookup_index<V>(s: Seq<(Seq<char>, V)>, key: Seq<char>, i: int)
    requires
        0 <= i < s.len(),
        s[i].0 == key,
        forall|k: int| 0 <= k < i ==> #[trigger] s[k].0 != key,
    ensures
        lookup(s, key) == Some(s[i].1),
    decreases i,
{
    if i > 0 {
        assert(s[0].0 != key);
        assert forall|k: int| 0 <= k < i - 1 implies #[trigger] s.drop_first()[k].0 != key by {
            assert(s.drop_first()[k] == s[k + 1]);
        }
        lemma_lookup_index(s.drop_first(), key, i - 1);
    }
}

pub proof fn lemma_lookup_none<V>(s: Seq<(Seq<char>, V)>, key: Seq<char>)
    requires
        forall|k: int| 0 <= k < s.len() ==> #[trigger] s[k].0 != key,
    ensures
        lookup(s, key) is None,
    decreases s.len(),
{
    if s.len() > 0 {
        assert(s[0].0 != key);
        assert forall|k: int| 0 <= k < s.len() - 1 implies #[trigger] s.drop_first()[k].0 != key by {
            assert(s.drop_first()[k] == s[k + 1]);
        }
        lemma_lookup_none(s.drop_first(), key);
    }
}

/// `lookup` finds exactly the entries present: a found value sits at some index with
/// that key, and `None` means no entry has it.
pub proof fn lemma_lookup_found<V>(s: Seq<(Seq<char>, V)>, key: Seq<char>)
    ensures
        match lookup(s, key) {
            Some(v) => exists|i: int| 0 <= i < s.len() && s[i].0 == key && s[i].1 == v,
            None => forall|k: int| 0 <= k < s.len() ==> #[trigger] s[k].0 != key,
        },
    decreases s.len(),
{
    if s.len() > 0 {
        lemma_lookup_found(s.drop_first(), key);
        if s[0].0 != key {
            match lookup(s.drop_first(), key) {
                Some(v) => {
                    let i = choose|i: int|
                        0 <= i < s.drop_first().len() && s.drop_first()[i].0 == key
                            && s.drop_first()[i].1 == v;
                    assert(s[i + 1] == s.drop_first()[i]);
                },
                None => {
                    assert forall|k: int| 0 <= k < s.len() implies #[trigger] s[k].0 != key by {
                        if k > 0 {
                            assert(s[k] == s.drop_first()[k - 1]);
                        }
                    }
                },
            }
        } else {
            assert(s[0].0 == key);
        }
    }
}

/// The entry stored under `key`, if there is one.
pub fn find_entry<'a, V: View>(entries: &'a Vec<(String, V)>, key: &str) -> (r: Option<&'a V>)
    ensures
        match r {
            Some(v) => lookup(pairs_view(entries@), key@) == Some(v@),
            None => lookup(pairs_view(entries@), key@) is None,
        },
{
    let ghost pv = pairs_view(entries@);
    let mut i: usize = 0;
    while i < entries.len()
        invariant
            i <= entries.len(),
            pv == pairs_view(entries@),
            forall|k: int| 0 <= k < i ==> #[trigger] pv[k].0 != key@,
        decreases entries.len() - i,
    {
        if crate::text::str_eq(entries[i].0.as_str(), key) {
            proof {
                lemma_lookup_index(pv, key@, i as int);
            }
            return Some(&entries[i].1);
        }
        i = i + 1;
    }
    proof {
        lemma_lookup_none(pv, key@);
    }
    None
}

/// Puts `value` under `key`, replacing the value already there, and keeps the keys in
/// ascending order.
pub fn insert_sorted<V: View>(entries: &mut Vec<(String, V)>, key: String, value: V)
    requires
        keys_sorted(pairs_view(old(entries)@)),
    ensures
        keys_sorted(pairs_view(final(entries)@)),
        forall|k: Seq<char>|
            #[trigger] lookup(pairs_view(final(entries)@), k) == if k == key@ {
                Some(value@)
            } else {
                lookup(pairs_view(old(entries)@), k)
            },
{
    let ghost old_v = pairs_view(entries@);
    let mut i: usize = 0;
    while i < entries.len() && str_lt(entries[i].0.as_str(), key.as_str())
        invariant
            i <= entries.len(),
            entries@ == old(entries)@,
            old_v == pairs_view(entries@),
            forall|k: int| 0 <= k < i ==> seq_lt(#[trigger] old_v[k].0, key@),
        decreases entries.len() - i,
    {
        i = i + 1;
    }
    let ghost kv = key@;
    let ghost vv = value@;
    if i < entries.len() && crate::text::str_eq(entries[i].0.as_str(), key.as_str()) {
        entries.set(i, (key, value));
        proof {
            let nv = pairs_view(entries@);
            assert(nv =~= old_v.update(i as int, (kv, vv)));
            assert forall|a: int, b: int| 0 <= a < b < nv.len() implies seq_lt(
                #[trigger] nv[a].0,
                #[trigger] nv[b].0,
            ) by {
                assert(nv[a].0 == old_v[a].0);
                assert(nv[b].0 == old_v[b].0);
            }
            assert forall|k: Seq<char>|
                #[trigger] lookup(nv, k) == if k == kv {
                    Some(vv)
                } else {
                    lookup(old_v, k)
                } by {
                if k == kv {
                    assert forall|m: int| 0 <= m < i implies #[trigger] nv[m].0 != k by {
                        lemma_seq_lt_irreflexive(k);
                    }
                    lemma_lookup_index(nv, k, i as int);
                } else {
                    lemma_lookup_found(old_v, k);
                    lemma_lookup_found(nv, k);
                    match lookup(old_v, k) {
                        Some(x) => {
                            let j = choose|j: int|
                                0 <= j < old_v.len() && old_v[j].0 == k && old_v[j].1 == x;
                            assert forall|m: int| 0 <= m < j implies #[trigger] nv[m].0 != k by {
                                assert(seq_lt(old_v[m].0, old_v[j].0));
                                lemma_seq_lt_irreflexive(k);
                            }
                            lemma_lookup_index(nv, k, j);
                        },
                        None => {
                            assert forall|m: int| 0 <= m < nv.len() implies #[trigger] nv[m].0
                                != k by {
                                if m != i {
                                    assert(nv[m] == old_v[m]);
                                }
                            }
                            lemma_lookup_none(nv, k);
                        },
                    }
                }
            }
        }
    } else {
        entries.insert(i, (key, value));
        proof {
            let nv = pairs_view(entries@);
            assert(nv =~= old_v.insert(i as int, (kv, vv)));
            if i < old_v.len() {
                lemma_seq_lt_total(old_v[i as int].0, kv);
                assert(seq_lt(kv, old_v[i as int].0));
            }
            assert forall|a: int, b: int| 0 <= a < b < nv.len() implies seq_lt(
                #[trigger] nv[a].0,
                #[trigger] nv[b].0,
            ) by {
                if b < i {
                } else if b == i {
                } else if a < i {
                    // a < i < b
                    assert(nv[b] == old_v[b - 1]);
                    if b - 1 > i {
                        assert(seq_lt(old_v[i as int].0, old_v[b - 1].0));
                        lemma_seq_lt_transitive(kv, old_v[i as int].0, old_v[b - 1].0);
                    }
                    lemma_seq_lt_transitive(nv[a].0, kv, nv[b].0);
                } else if a == i {
                    assert(nv[b] == old_v[b - 1]);
                    if b - 1 > i {
                        assert(seq_lt(old_v[i as int].0, old_v[b - 1].0));
                        lemma_seq_lt_transitive(kv, old_v[i as int].0, old_v[b - 1].0);
                    }
                } else {
                    assert(nv[a] == old_v[a - 1]);
                    assert(nv[b] == old_v[b - 1]);
                }
            }
            assert forall|k: Seq<char>|
                #[trigger] lookup(nv, k) == if k == kv {
                    Some(vv)
                } else {
                    lookup(old_v, k)
                } by {
                if k == kv {
                    assert forall|m: int| 0 <= m < i implies #[trigger] nv[m].0 != k by {
                        lemma_seq_lt_irreflexive(k);
                    }
                    lemma_lookup_index(nv, k, i as int);
                } else {
                    lemma_lookup_found(old_v, k);
                    match lookup(old_v, k) {
                        Some(x) => {
                            let j = choose|j: int|
                                0 <= j < old_v.len() && old_v[j].0 == k && old_v[j].1 == x;
                            let jn = if j < i {
                                j
                            } else {
                                j + 1
                            };
                            assert(nv[jn] == old_v[j]);
                            assert forall|m: int| 0 <= m < jn implies #[trigger] nv[m].0 != k by {
                                if m < i {
                                    assert(nv[m] == old_v[m]);
                                    assert(seq_lt(old_v[m].0, old_v[j].0));
                                    lemma_seq_lt_irreflexive(k);
                                } else if m == i {
                                } else {
                                    assert(nv[m] == old_v[m - 1]);
                                    assert(seq_lt(old_v[m - 1].0, old_v[j].0));
                                    lemma_seq_lt_irreflexive(k);
                                }
                            }
                            lemma_lookup_index(nv, k, jn);
                        },
                        None => {
                            assert forall|m: int| 0 <= m < nv.len() implies #[trigger] nv[m].0
                                != k by {
                                if m < i {
                                    assert(nv[m] == old_v[m]);
                                } else if m > i {
                                    assert(nv[m] == old_v[m - 1]);
                                }
                            }
                            lemma_lookup_none(nv, k);
                        },
                    }
                }
            }
        }
    }
}

} // verus!
