//! Maps kept as vectors of entries in strictly increasing key order, the
//! shape of an ordered map whose keys are strings.

use vstd::prelude::*;
use crate::unicode::chars_of;
use crate::text::{compare_chars, lemma_lex_asym, lemma_lex_trans, lex_lt, strictly_sorted};

verus! {

/// The keys of a sequence of entries.
pub open spec fn keys_of<V>(s: Seq<(Seq<char>, V)>) -> Seq<Seq<char>> {
    s.map_values(|e: (Seq<char>, V)| e.0)
}

/// The keys of a vector of entries with string keys.
pub open spec fn string_keys<V>(s: Seq<(String, V)>) -> Seq<Seq<char>> {
    s.map_values(|e: (String, V)| e.0@)
}

/// The map that a sequence of entries stands for (later entries win).
pub open spec fn map_of<V>(s: Seq<(Seq<char>, V)>) -> Map<Seq<char>, V>
    decreases s.len(),
{
    if s.len() == 0 {
        Map::empty()
    } else {
        map_of(s.drop_last()).insert(s.last().0, s.last().1)
    }
}

/// In a strictly sorted sequence no key occurs twice.
pub proof fn lemma_sorted_distinct(ks: Seq<Seq<char>>, i: int, j: int)
    requires
        strictly_sorted(ks),
        0 <= i < ks.len(),
        0 <= j < ks.len(),
        i != j,
    ensures
        ks[i] != ks[j],
{
    if i < j {
        lemma_lex_asym(ks[i], ks[j]);
    } else {
        lemma_lex_asym(ks[j], ks[i]);
    }
}

/// With sorted keys, the map holds exactly the keys of the entries, each
/// with its entry's value.
pub proof fn lemma_map_of<V>(s: Seq<(Seq<char>, V)>)
    requires
        strictly_sorted(keys_of(s)),
    ensures
        forall|k: Seq<char>| map_of(s).contains_key(k) <==> exists|i: int| 0 <= i < s.len() && #[trigger] s[i].0 == k,
        forall|i: int| 0 <= i < s.len() ==> #[trigger] map_of(s)[s[i].0] == s[i].1,
    decreases s.len(),
{
    if s.len() > 0 {
        let t = s.drop_last();
        assert(keys_of(t) =~= keys_of(s).drop_last());
        lemma_map_of(t);
        assert(map_of(s) == map_of(t).insert(s.last().0, s.last().1));
        assert forall|k: Seq<char>| map_of(s).contains_key(k) <==> exists|i: int| 0 <= i < s.len() && #[trigger] s[i].0 == k by {
            if map_of(s).contains_key(k) && k != s.last().0 {
                assert(map_of(t).contains_key(k));
                let i = choose|i: int| 0 <= i < t.len() && #[trigger] t[i].0 == k;
                assert(s[i].0 == k);
            }
            if map_of(s).contains_key(k) && k == s.last().0 {
                assert(s[s.len() - 1].0 == k);
            }
            if exists|i: int| 0 <= i < s.len() && #[trigger] s[i].0 == k {
                let i = choose|i: int| 0 <= i < s.len() && #[trigger] s[i].0 == k;
                if i < s.len() - 1 {
                    assert(t[i].0 == k);
                }
            }
        }
        assert forall|i: int| 0 <= i < s.len() implies #[trigger] map_of(s)[s[i].0] == s[i].1 by {
            if i < s.len() - 1 {
                lemma_sorted_distinct(keys_of(s), i, s.len() - 1);
                assert(t[i] == s[i]);
            }
        }
    }
}

/// A key that no entry has is not in the map.
pub proof fn lemma_map_of_absent<V>(s: Seq<(Seq<char>, V)>, k: Seq<char>)
    requires
        strictly_sorted(keys_of(s)),
        forall|j: int| 0 <= j < s.len() ==> keys_of(s)[j] != k,
    ensures
        !map_of(s).contains_key(k),
{
    lemma_map_of(s);
    if map_of(s).contains_key(k) {
        let j = choose|j: int| 0 <= j < s.len() && #[trigger] s[j].0 == k;
        assert(keys_of(s)[j] == k);
    }
}

/// Inserting an entry with a new key at its sorted place inserts it into the map.
pub proof fn lemma_map_of_insert<V>(s: Seq<(Seq<char>, V)>, i: int, k: Seq<char>, v: V)
    requires
        strictly_sorted(keys_of(s)),
        strictly_sorted(keys_of(s.insert(i, (k, v)))),
        0 <= i <= s.len(),
    ensures
        map_of(s.insert(i, (k, v))) == map_of(s).insert(k, v),
{
    let n = s.insert(i, (k, v));
    lemma_map_of(s);
    lemma_map_of(n);
    assert(n[i] == (k, v));
    assert(n[i].0 == k);
    assert forall|x: Seq<char>| #[trigger] map_of(n).contains_key(x) <==> map_of(s).insert(k, v).contains_key(x) by {
        if map_of(n).contains_key(x) && x != k {
            let j = choose|j: int| 0 <= j < n.len() && #[trigger] n[j].0 == x;
            assert(j != i);
            if j < i {
                assert(s[j].0 == x);
            } else {
                assert(s[j - 1].0 == x);
            }
        }
        if map_of(s).contains_key(x) {
            let j = choose|j: int| 0 <= j < s.len() && #[trigger] s[j].0 == x;
            if j < i {
                assert(n[j].0 == x);
            } else {
                assert(n[j + 1].0 == x);
            }
        }
    }
    assert forall|x: Seq<char>| #[trigger] map_of(n).contains_key(x) implies map_of(n)[x] == map_of(s).insert(k, v)[x] by {
        let j = choose|j: int| 0 <= j < n.len() && #[trigger] n[j].0 == x;
        if x != k {
            assert(j != i);
            if j < i {
                assert(s[j] == n[j]);
            } else {
                assert(s[j - 1] == n[j]);
            }
        } else {
            assert(map_of(n)[n[i].0] == n[i].1);
        }
    }
    assert(map_of(n) =~= map_of(s).insert(k, v));
}

/// Replacing the value of an entry replaces it in the map.
pub proof fn lemma_map_of_update<V>(s: Seq<(Seq<char>, V)>, i: int, v: V)
    requires
        strictly_sorted(keys_of(s)),
        0 <= i < s.len(),
    ensures
        map_of(s.update(i, (s[i].0, v))) == map_of(s).insert(s[i].0, v),
        keys_of(s.update(i, (s[i].0, v))) == keys_of(s),
{
    let n = s.update(i, (s[i].0, v));
    assert(keys_of(n) =~= keys_of(s));
    lemma_map_of(s);
    lemma_map_of(n);
    assert forall|x: Seq<char>| #[trigger] map_of(n).contains_key(x) <==> map_of(s).insert(s[i].0, v).contains_key(x) by {
        if map_of(n).contains_key(x) {
            let j = choose|j: int| 0 <= j < n.len() && #[trigger] n[j].0 == x;
            assert(s[j].0 == x);
        }
        if map_of(s).contains_key(x) {
            let j = choose|j: int| 0 <= j < s.len() && #[trigger] s[j].0 == x;
            assert(n[j].0 == x);
        }
    }
    assert forall|x: Seq<char>| #[trigger] map_of(n).contains_key(x) implies map_of(n)[x] == map_of(s).insert(s[i].0, v)[x] by {
        let j = choose|j: int| 0 <= j < n.len() && #[trigger] n[j].0 == x;
        if j != i {
            lemma_sorted_distinct(keys_of(s), i, j);
        }
    }
    assert(map_of(n) =~= map_of(s).insert(s[i].0, v));
}

/// A key placed where everything before is smaller and everything after is
/// larger keeps the keys sorted.
pub proof fn lemma_insert_sorted(ks: Seq<Seq<char>>, i: int, k: Seq<char>)
    requires
        strictly_sorted(ks),
        0 <= i <= ks.len(),
        forall|j: int| 0 <= j < i ==> lex_lt(ks[j], k),
        forall|j: int| i <= j < ks.len() ==> lex_lt(k, ks[j]),
    ensures
        strictly_sorted(ks.insert(i, k)),
{
    let n = ks.insert(i, k);
    assert forall|a: int, b: int| 0 <= a < b < n.len() implies lex_lt(n[a], n[b]) by {
        if a < i && b > i {
            assert(n[a] == ks[a]);
            assert(n[b] == ks[b - 1]);
        } else if a < i && b < i {
        } else if a == i {
            assert(n[b] == ks[b - 1]);
        } else if b == i {
        } else {
            assert(n[a] == ks[a - 1]);
            assert(n[b] == ks[b - 1]);
        }
    }
}

/// Where a key is, or where it belongs, in entries sorted by key.
pub(crate) fn find_key<V>(entries: &Vec<(String, V)>, key: &Vec<char>) -> (r: Result<usize, usize>)
    requires
        strictly_sorted(string_keys(entries@)),
    ensures
        match r {
            Ok(i) => i < entries@.len() && entries@[i as int].0@ == key@,
            Err(i) => {
                &&& i <= entries@.len()
                &&& forall|j: int| 0 <= j < i ==> lex_lt(string_keys(entries@)[j], key@)
                &&& forall|j: int| i <= j < entries@.len() ==> lex_lt(key@, string_keys(entries@)[j])
                &&& forall|j: int| 0 <= j < entries@.len() ==> string_keys(entries@)[j] != key@
            },
        },
{
    let ghost ks = string_keys(entries@);
    let mut lo: usize = 0;
    let mut hi: usize = entries.len();
    while lo < hi
        invariant
            lo <= hi <= entries@.len(),
            ks == string_keys(entries@),
            strictly_sorted(ks),
            forall|j: int| 0 <= j < lo ==> lex_lt(ks[j], key@),
            forall|j: int| hi <= j < entries@.len() ==> lex_lt(key@, ks[j]),
        decreases hi - lo,
    {
        let mid: usize = lo + (hi - lo) / 2;
        let mid_chars = chars_of(entries[mid].0.as_str());
        let c: i8 = compare_chars(&mid_chars, key);
        assert(ks[mid as int] == mid_chars@);
        if c == 0 {
            return Ok(mid);
        } else if c < 0 {
            proof {
                assert forall|j: int| 0 <= j < mid + 1 implies lex_lt(ks[j], key@) by {
                    if j < mid {
                        lemma_lex_trans(ks[j], ks[mid as int], key@);
                    }
                }
            }
            lo = mid + 1;
        } else {
            proof {
                assert forall|j: int| mid <= j < entries@.len() implies lex_lt(key@, ks[j]) by {
                    if j > mid {
                        lemma_lex_trans(key@, ks[mid as int], ks[j]);
                    }
                }
            }
            hi = mid;
        }
    }
    proof {
        assert forall|j: int| 0 <= j < entries@.len() implies ks[j] != key@ by {
            lemma_lex_asym(ks[j], key@);
        }
    }
    Err(lo)
}

} // verus!
