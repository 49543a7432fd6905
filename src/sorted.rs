//! Sequences of (key, value) entries read as maps: a later entry for a key
//! replaces an earlier one, and a sequence strictly sorted by key is the
//! canonical form of its map.
use crate::path::{key_lt, lemma_key_lt_asymmetric, lemma_key_lt_irreflexive, lemma_key_lt_total, lemma_key_lt_transitive};
use vstd::prelude::*;

verus! {

/// Keys strictly increasing: sorted, and no key twice.
pub open spec fn strictly_sorted<V>(s: Seq<(Seq<char>, V)>) -> bool {
    forall|i: int, j: int| 0 <= i < j < s.len() ==> key_lt(#[trigger] s[i].0, #[trigger] s[j].0)
}

/// The map that the entries describe, the last entry of a key winning.
pub open spec fn last_wins<K, V>(s: Seq<(K, V)>) -> Map<K, V>
    decreases s.len(),
{
    if s.len() == 0 {
        Map::empty()
    } else {
        last_wins(s.drop_last()).insert(s.last().0, s.last().1)
    }
}

/// Entries applied one after the other to a map.
pub open spec fn apply_entries<K, V>(m: Map<K, V>, s: Seq<(K, V)>) -> Map<K, V>
    decreases s.len(),
{
    if s.len() == 0 {
        m
    } else {
        apply_entries(m, s.drop_last()).insert(s.last().0, s.last().1)
    }
}

pub proof fn lemma_apply_empty<K, V>(s: Seq<(K, V)>)
    ensures
        apply_entries(Map::empty(), s) == last_wins(s),
    decreases s.len(),
{
    if s.len() > 0 {
        lemma_apply_empty(s.drop_last());
    }
}

pub proof fn lemma_apply_concat<K, V>(m: Map<K, V>, a: Seq<(K, V)>, b: Seq<(K, V)>)
    ensures
        apply_entries(m, a + b) == apply_entries(apply_entries(m, a), b),
    decreases b.len(),
{
    if b.len() == 0 {
        assert(a + b =~= a);
    } else {
        assert((a + b).drop_last() =~= a + b.drop_last());
        lemma_apply_concat(m, a, b.drop_last());
    }
}

/// In a strictly sorted sequence, each entry is what its key maps to, and nothing else is mapped.
pub proof fn lemma_sorted_map<V>(s: Seq<(Seq<char>, V)>)
    requires
        strictly_sorted(s),
    ensures
        forall|i: int| 0 <= i < s.len() ==> #[trigger] last_wins(s).contains_key(s[i].0)
            && last_wins(s)[s[i].0] == s[i].1,
        forall|k: Seq<char>| #[trigger] last_wins(s).contains_key(k) ==> exists|i: int|
            0 <= i < s.len() && s[i].0 == k,
    decreases s.len(),
{
    if s.len() > 0 {
        let t = s.drop_last();
        assert(strictly_sorted(t)) by {
            assert forall|i: int, j: int| 0 <= i < j < t.len() implies key_lt(
                #[trigger] t[i].0,
                #[trigger] t[j].0,
            ) by {
                assert(t[i] == s[i] && t[j] == s[j]);
            }
        }
        lemma_sorted_map(t);
        assert forall|i: int| 0 <= i < s.len() implies #[trigger] last_wins(s).contains_key(s[i].0)
            && last_wins(s)[s[i].0] == s[i].1 by {
            assert(last_wins(s) == last_wins(t).insert(s.last().0, s.last().1));
            if i < s.len() - 1 {
                assert(t[i] == s[i]);
                assert(last_wins(t).contains_key(t[i].0));
                assert(key_lt(s[i].0, s[s.len() - 1].0));
                lemma_key_lt_irreflexive(s[i].0);
            }
        }
        assert forall|k: Seq<char>| #[trigger] last_wins(s).contains_key(k) implies exists|i: int|
            0 <= i < s.len() && s[i].0 == k by {
            if k != s.last().0 {
                assert(last_wins(t).contains_key(k));
                let i = choose|i: int| 0 <= i < t.len() && t[i].0 == k;
                assert(s[i] == t[i]);
            } else {
                assert(s[s.len() - 1].0 == k);
            }
        }
    }
}

/// Two strictly sorted sequences that describe the same map are the same sequence.
pub proof fn lemma_sorted_unique<V>(a: Seq<(Seq<char>, V)>, b: Seq<(Seq<char>, V)>)
    requires
        strictly_sorted(a),
        strictly_sorted(b),
        last_wins(a) == last_wins(b),
    ensures
        a == b,
    decreases a.len() + b.len(),
{
    lemma_sorted_map(a);
    lemma_sorted_map(b);
    if a.len() == 0 {
        if b.len() > 0 {
            assert(last_wins(b).contains_key(b[0].0));
        }
        assert(a =~= b);
    } else if b.len() == 0 {
        assert(last_wins(a).contains_key(a[0].0));
    } else {
        let ka = a.last().0;
        let kb = b.last().0;
        assert(last_wins(a).contains_key(ka));
        assert(last_wins(b).contains_key(kb));
        let i = choose|i: int| 0 <= i < b.len() && b[i].0 == ka;
        let j = choose|j: int| 0 <= j < a.len() && a[j].0 == kb;
        if i < b.len() - 1 {
            assert(key_lt(ka, kb));
            if j < a.len() - 1 {
                assert(key_lt(kb, ka));
                lemma_key_lt_asymmetric(ka, kb);
            } else {
                lemma_key_lt_irreflexive(ka);
            }
        }
        assert(i == b.len() - 1);
        let ta = a.drop_last();
        let tb = b.drop_last();
        assert(strictly_sorted(ta)) by {
            assert forall|x: int, y: int| 0 <= x < y < ta.len() implies key_lt(
                #[trigger] ta[x].0,
                #[trigger] ta[y].0,
            ) by {
                assert(ta[x] == a[x] && ta[y] == a[y]);
            }
        }
        assert(strictly_sorted(tb)) by {
            assert forall|x: int, y: int| 0 <= x < y < tb.len() implies key_lt(
                #[trigger] tb[x].0,
                #[trigger] tb[y].0,
            ) by {
                assert(tb[x] == b[x] && tb[y] == b[y]);
            }
        }
        lemma_sorted_map(ta);
        lemma_sorted_map(tb);
        assert(last_wins(ta) =~= last_wins(tb)) by {
            assert forall|k: Seq<char>| #[trigger] last_wins(ta).contains_key(k) implies last_wins(
                tb,
            ).contains_key(k) && last_wins(ta)[k] == last_wins(tb)[k] by {
                let x = choose|x: int| 0 <= x < ta.len() && ta[x].0 == k;
                assert(a[x] == ta[x]);
                assert(key_lt(k, ka));
                lemma_key_lt_irreflexive(k);
                assert(last_wins(a)[k] == last_wins(ta)[k]);
                assert(last_wins(b).contains_key(k));
                assert(last_wins(b)[k] == last_wins(tb)[k]);
            }
            assert forall|k: Seq<char>| #[trigger] last_wins(tb).contains_key(k) implies last_wins(
                ta,
            ).contains_key(k) by {
                let x = choose|x: int| 0 <= x < tb.len() && tb[x].0 == k;
                assert(b[x] == tb[x]);
                assert(key_lt(k, ka));
                lemma_key_lt_irreflexive(k);
                assert(last_wins(a).contains_key(k));
            }
        }
        lemma_sorted_unique(ta, tb);
        assert(a.last().1 == last_wins(a)[ka]);
        assert(b.last().1 == last_wins(b)[ka]);
        assert(a =~= ta.push(a.last()));
        assert(b =~= tb.push(b.last()));
    }
}

/// The position at which key `k` goes into the sorted `s`: every key before it is smaller.
pub open spec fn insert_point<V>(s: Seq<(Seq<char>, V)>, k: Seq<char>, j: int) -> bool {
    &&& 0 <= j <= s.len()
    &&& forall|i: int| 0 <= i < j ==> key_lt(#[trigger] s[i].0, k)
    &&& j < s.len() ==> !key_lt(s[j].0, k)
}

/// Putting a new key at its place keeps the order and adds the entry to the map.
pub proof fn lemma_sorted_insert<V>(s: Seq<(Seq<char>, V)>, j: int, k: Seq<char>, v: V)
    requires
        strictly_sorted(s),
        insert_point(s, k, j),
        j == s.len() || s[j].0 != k,
    ensures
        strictly_sorted(s.insert(j, (k, v))),
        last_wins(s.insert(j, (k, v))) == last_wins(s).insert(k, v),
{
    let t = s.insert(j, (k, v));
    if j < s.len() {
        lemma_key_lt_total(s[j].0, k);
    }
    assert forall|x: int, y: int| 0 <= x < y < t.len() implies key_lt(
        #[trigger] t[x].0,
        #[trigger] t[y].0,
    ) by {
        if y < j {
            assert(t[x] == s[x] && t[y] == s[y]);
        } else if y == j {
            assert(t[x] == s[x]);
        } else if x == j {
            assert(t[y] == s[y - 1]);
            if y - 1 > j {
                lemma_key_lt_transitive(k, s[j].0, s[y - 1].0);
            }
        } else if x < j {
            assert(t[x] == s[x] && t[y] == s[y - 1]);
        } else {
            assert(t[x] == s[x - 1] && t[y] == s[y - 1]);
        }
    }
    lemma_sorted_map(s);
    lemma_sorted_map(t);
    assert(last_wins(t) =~= last_wins(s).insert(k, v)) by {
        assert forall|key: Seq<char>| #[trigger] last_wins(t).contains_key(key) implies last_wins(
            s,
        ).insert(k, v).contains_key(key) && last_wins(t)[key] == last_wins(s).insert(k, v)[key] by {
            let x = choose|x: int| 0 <= x < t.len() && t[x].0 == key;
            assert(t[j].0 == k);
            assert(last_wins(t).contains_key(t[x].0));
            if x < j {
                assert(t[x] == s[x]);
                assert(last_wins(s).contains_key(s[x].0));
                assert(key_lt(t[x].0, t[j].0));
                lemma_key_lt_irreflexive(k);
            } else if x > j {
                assert(t[x] == s[x - 1]);
                assert(last_wins(s).contains_key(s[x - 1].0));
                assert(key_lt(t[j].0, t[x].0));
                lemma_key_lt_irreflexive(k);
            } else {
                assert(t[x] == (k, v));
            }
        }
        assert forall|key: Seq<char>| #[trigger] last_wins(s).insert(k, v).contains_key(
            key,
        ) implies last_wins(t).contains_key(key) by {
            if key != k {
                let x = choose|x: int| 0 <= x < s.len() && s[x].0 == key;
                if x < j {
                    assert(t[x] == s[x]);
                } else {
                    assert(t[x + 1] == s[x]);
                }
            } else {
                assert(t[j].0 == k);
            }
        }
    }
}

/// Replacing the entry of a key that is there keeps the order and updates the map.
pub proof fn lemma_sorted_replace<V>(s: Seq<(Seq<char>, V)>, j: int, v: V)
    requires
        strictly_sorted(s),
        0 <= j < s.len(),
    ensures
        strictly_sorted(s.update(j, (s[j].0, v))),
        last_wins(s.update(j, (s[j].0, v))) == last_wins(s).insert(s[j].0, v),
{
    let k = s[j].0;
    let t = s.update(j, (k, v));
    assert forall|x: int, y: int| 0 <= x < y < t.len() implies key_lt(
        #[trigger] t[x].0,
        #[trigger] t[y].0,
    ) by {
        assert(t[x].0 == s[x].0 && t[y].0 == s[y].0);
    }
    lemma_sorted_map(s);
    lemma_sorted_map(t);
    assert(last_wins(t) =~= last_wins(s).insert(k, v)) by {
        assert forall|key: Seq<char>| #[trigger] last_wins(t).contains_key(key) implies last_wins(
            s,
        ).insert(k, v).contains_key(key) && last_wins(t)[key] == last_wins(s).insert(k, v)[key] by {
            let x = choose|x: int| 0 <= x < t.len() && t[x].0 == key;
            if x != j {
                assert(t[x] == s[x]);
                if x < j {
                    assert(key_lt(key, k));
                } else {
                    assert(key_lt(k, key));
                }
                lemma_key_lt_irreflexive(k);
            }
        }
        assert forall|key: Seq<char>| #[trigger] last_wins(s).insert(k, v).contains_key(
            key,
        ) implies last_wins(t).contains_key(key) by {
            if key != k {
                let x = choose|x: int| 0 <= x < s.len() && s[x].0 == key;
                assert(t[x].0 == s[x].0);
            } else {
                assert(t[j].0 == k);
            }
        }
    }
}

/// Reading a concatenation as a map: the entries of the second part win.
pub proof fn lemma_last_wins_concat<K, V>(a: Seq<(K, V)>, b: Seq<(K, V)>)
    ensures
        last_wins(a + b) == last_wins(a).union_prefer_right(last_wins(b)),
    decreases b.len(),
{
    if b.len() == 0 {
        assert(a + b =~= a);
        assert(last_wins(a).union_prefer_right(last_wins(b)) =~= last_wins(a));
    } else {
        assert((a + b).drop_last() =~= a + b.drop_last());
        lemma_last_wins_concat(a, b.drop_last());
        assert(last_wins(a + b) =~= last_wins(a).union_prefer_right(last_wins(b)));
    }
}

/// Every key of the entries is a key of their map.
pub proof fn lemma_last_wins_keys<K, V>(s: Seq<(K, V)>)
    ensures
        forall|i: int| 0 <= i < s.len() ==> last_wins(s).contains_key(#[trigger] s[i].0),
        forall|k: K| #[trigger] last_wins(s).contains_key(k) ==> exists|i: int| 0 <= i < s.len() && s[i].0 == k,
    decreases s.len(),
{
    if s.len() > 0 {
        lemma_last_wins_keys(s.drop_last());
        assert forall|i: int| 0 <= i < s.len() implies last_wins(s).contains_key(#[trigger] s[i].0) by {
            if i < s.len() - 1 {
                assert(s.drop_last()[i] == s[i]);
            }
        }
        assert(last_wins(s) == last_wins(s.drop_last()).insert(s.last().0, s.last().1));
        assert forall|k: K| #[trigger] last_wins(s).contains_key(k) implies exists|i: int| 0 <= i < s.len() && s[i].0 == k by {
            if k != s.last().0 {
                assert(last_wins(s.drop_last()).contains_key(k));
                let i = choose|i: int| 0 <= i < s.drop_last().len() && s.drop_last()[i].0 == k;
                assert(s[i] == s.drop_last()[i]);
            } else {
                assert(s[s.len() - 1].0 == k);
            }
        }
    }
}

/// The entries with their keys renamed by `f`.
pub open spec fn rekey<K, K2, V>(s: Seq<(K, V)>, f: spec_fn(K) -> K2) -> Seq<(K2, V)> {
    s.map_values(|p: (K, V)| (f(p.0), p.1))
}

/// Renaming the keys by `f`, one to one on the keys present, renames the map's keys.
pub proof fn lemma_last_wins_rekey<K, K2, V>(s: Seq<(K, V)>, f: spec_fn(K) -> K2)
    requires
        forall|i: int, j: int| 0 <= i < s.len() && 0 <= j < s.len() && f(#[trigger] s[i].0) == f(#[trigger] s[j].0) ==> s[i].0 == s[j].0,
    ensures
        forall|k: K| #[trigger] last_wins(s).contains_key(k) ==> last_wins(rekey(s, f)).contains_key(f(k))
            && last_wins(rekey(s, f))[f(k)] == last_wins(s)[k],
        forall|k2: K2| #[trigger] last_wins(rekey(s, f)).contains_key(k2) ==> exists|k: K|
            last_wins(s).contains_key(k) && f(k) == k2,
    decreases s.len(),
{
    if s.len() > 0 {
        let t = s.drop_last();
        assert forall|i: int, j: int| 0 <= i < t.len() && 0 <= j < t.len() && f(#[trigger] t[i].0) == f(#[trigger] t[j].0) implies t[i].0 == t[j].0 by {
            assert(t[i] == s[i] && t[j] == s[j]);
        }
        lemma_last_wins_rekey(t, f);
        lemma_last_wins_keys(t);
        assert(rekey(s, f).drop_last() =~= rekey(t, f));
        let n = s.len() - 1;
        assert forall|k: K| #[trigger] last_wins(s).contains_key(k) implies last_wins(rekey(s, f)).contains_key(f(k))
            && last_wins(rekey(s, f))[f(k)] == last_wins(s)[k] by {
            if k != s[n].0 {
                assert(last_wins(t).contains_key(k));
                let i = choose|i: int| 0 <= i < t.len() && t[i].0 == k;
                assert(s[i] == t[i]);
                if f(k) == f(s[n].0) {
                    assert(f(s[i].0) == f(s[n].0));
                }
            }
        }
        assert forall|k2: K2| #[trigger] last_wins(rekey(s, f)).contains_key(k2) implies exists|k: K|
            last_wins(s).contains_key(k) && f(k) == k2 by {
            if k2 != f(s[n].0) {
                let k = choose|k: K| last_wins(t).contains_key(k) && f(k) == k2;
                assert(last_wins(s).contains_key(k));
            } else {
                assert(last_wins(s).contains_key(s[n].0));
            }
        }
    }
}

} // verus!
