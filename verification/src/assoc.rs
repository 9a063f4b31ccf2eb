//! Lists of keys and values, each key once, as maps.
use vstd::prelude::*;

verus! {

/// Whether a key stands in a list.
pub open spec fn has_key<K, V>(s: Seq<(K, V)>, key: K) -> bool {
    exists|i: int| 0 <= i < s.len() && (#[trigger] s[i]).0 == key
}

/// Whether each key stands in a list once.
pub open spec fn keys_differ<K, V>(s: Seq<(K, V)>) -> bool {
    forall|i: int, j: int| 0 <= i < j < s.len() ==> (#[trigger] s[i]).0 != (#[trigger] s[j]).0
}

/// The value that stands with a key.
pub open spec fn value_of<K, V>(s: Seq<(K, V)>, key: K) -> V {
    s[choose|i: int| 0 <= i < s.len() && (#[trigger] s[i]).0 == key].1
}

/// The map that a list stands for.
pub open spec fn assoc_map<K, V>(s: Seq<(K, V)>) -> Map<K, V> {
    Map::new(|k: K| has_key(s, k), |k: K| value_of(s, k))
}

pub proof fn lemma_value_of<K, V>(s: Seq<(K, V)>, i: int)
    requires
        keys_differ(s),
        0 <= i < s.len(),
    ensures
        has_key(s, s[i].0),
        value_of(s, s[i].0) == s[i].1,
        assoc_map(s).contains_key(s[i].0),
        assoc_map(s)[s[i].0] == s[i].1,
{
    let key = s[i].0;
    let j = choose|j: int| 0 <= j < s.len() && (#[trigger] s[j]).0 == key;
    assert(s[j].0 == key);
    assert(i == j) by {
        if i < j {
            assert(s[i].0 != s[j].0);
        } else if j < i {
            assert(s[j].0 != s[i].0);
        }
    }
}

/// A list with a new key is the map with that key.
pub proof fn lemma_assoc_insert<K, V>(s: Seq<(K, V)>, at: int, key: K, value: V)
    requires
        keys_differ(s),
        0 <= at <= s.len(),
        !has_key(s, key),
    ensures
        keys_differ(s.insert(at, (key, value))),
        assoc_map(s.insert(at, (key, value))) == assoc_map(s).insert(key, value),
{
    let t = s.insert(at, (key, value));
    assert forall|i: int| 0 <= i < s.len() implies (#[trigger] s[i]).0 != key by {
        if s[i].0 == key {
            assert(has_key(s, key));
        }
    }
    assert forall|i: int, j: int| 0 <= i < j < t.len() implies (#[trigger] t[i]).0 != (
    #[trigger] t[j]).0 by {
        let a = if i < at {
            i
        } else {
            i - 1
        };
        let b = if j < at {
            j
        } else {
            j - 1
        };
        if i == at {
            assert(t[j] == s[b]);
        } else if j == at {
            assert(t[i] == s[a]);
        } else {
            assert(t[i] == s[a] && t[j] == s[b]);
        }
    }
    assert(t[at] == (key, value));
    lemma_value_of(t, at);
    assert forall|k: K| has_key(t, k) <==> (has_key(s, k) || k == key) by {
        if has_key(s, k) {
            let i = choose|i: int| 0 <= i < s.len() && (#[trigger] s[i]).0 == k;
            let a = if i < at {
                i
            } else {
                i + 1
            };
            assert(t[a] == s[i]);
        }
        if has_key(t, k) && k != key {
            let i = choose|i: int| 0 <= i < t.len() && (#[trigger] t[i]).0 == k;
            let a = if i < at {
                i
            } else {
                i - 1
            };
            assert(t[i] == s[a]);
        }
    }
    assert forall|k: K| has_key(s, k) implies value_of(t, k) == value_of(s, k) by {
        let i = choose|i: int| 0 <= i < s.len() && (#[trigger] s[i]).0 == k;
        let a = if i < at {
            i
        } else {
            i + 1
        };
        assert(t[a] == s[i]);
        lemma_value_of(t, a);
        lemma_value_of(s, i);
    }
    assert(assoc_map(t) =~= assoc_map(s).insert(key, value));
}

/// A list with another value for a key is the map with that value.
pub proof fn lemma_assoc_update<K, V>(s: Seq<(K, V)>, at: int, value: V)
    requires
        keys_differ(s),
        0 <= at < s.len(),
    ensures
        keys_differ(s.update(at, (s[at].0, value))),
        assoc_map(s.update(at, (s[at].0, value))) == assoc_map(s).insert(s[at].0, value),
{
    let t = s.update(at, (s[at].0, value));
    assert forall|i: int| 0 <= i < s.len() implies (#[trigger] t[i]).0 == s[i].0 by {}
    assert forall|i: int, j: int| 0 <= i < j < t.len() implies (#[trigger] t[i]).0 != (
    #[trigger] t[j]).0 by {
        assert(s[i].0 != s[j].0);
    }
    lemma_value_of(t, at);
    lemma_value_of(s, at);
    assert forall|k: K| has_key(t, k) <==> has_key(s, k) by {
        if has_key(s, k) {
            let i = choose|i: int| 0 <= i < s.len() && (#[trigger] s[i]).0 == k;
            assert(t[i].0 == k);
        }
        if has_key(t, k) {
            let i = choose|i: int| 0 <= i < t.len() && (#[trigger] t[i]).0 == k;
            assert(s[i].0 == k);
        }
    }
    assert forall|k: K| has_key(s, k) && k != s[at].0 implies value_of(t, k) == value_of(s, k) by {
        let i = choose|i: int| 0 <= i < s.len() && (#[trigger] s[i]).0 == k;
        assert(t[i] == s[i]);
        lemma_value_of(t, i);
        lemma_value_of(s, i);
    }
    assert(assoc_map(t) =~= assoc_map(s).insert(s[at].0, value));
}

/// A list without one of its places is the map without that key.
pub proof fn lemma_assoc_remove<K, V>(s: Seq<(K, V)>, at: int)
    requires
        keys_differ(s),
        0 <= at < s.len(),
    ensures
        keys_differ(s.remove(at)),
        assoc_map(s.remove(at)) == assoc_map(s).remove(s[at].0),
{
    let t = s.remove(at);
    let key = s[at].0;
    assert forall|i: int| 0 <= i < t.len() implies #[trigger] t[i] == s[if i < at {
        i
    } else {
        i + 1
    }] by {}
    assert forall|i: int, j: int| 0 <= i < j < t.len() implies (#[trigger] t[i]).0 != (
    #[trigger] t[j]).0 by {
        let a = if i < at {
            i
        } else {
            i + 1
        };
        let b = if j < at {
            j
        } else {
            j + 1
        };
        assert(s[a].0 != s[b].0);
    }
    assert forall|k: K| has_key(t, k) <==> (has_key(s, k) && k != key) by {
        if has_key(s, k) && k != key {
            let i = choose|i: int| 0 <= i < s.len() && (#[trigger] s[i]).0 == k;
            let a = if i < at {
                i
            } else {
                i - 1
            };
            assert(t[a] == s[i]);
        }
        if has_key(t, k) {
            let i = choose|i: int| 0 <= i < t.len() && (#[trigger] t[i]).0 == k;
            let a = if i < at {
                i
            } else {
                i + 1
            };
            assert(s[a].0 == k);
            if a < at {
                assert(s[a].0 != s[at].0);
            } else {
                assert(s[at].0 != s[a].0);
            }
        }
    }
    assert forall|k: K| has_key(t, k) implies value_of(t, k) == value_of(s, k) by {
        let i = choose|i: int| 0 <= i < t.len() && (#[trigger] t[i]).0 == k;
        let a = if i < at {
            i
        } else {
            i + 1
        };
        lemma_value_of(t, i);
        lemma_value_of(s, a);
    }
    assert(assoc_map(t) =~= assoc_map(s).remove(key));
}

} // verus!
