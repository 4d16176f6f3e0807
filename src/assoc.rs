//! Association lists: sequences of key/value pairs read as finite maps.
use vstd::prelude::*;

verus! {

/// Some pair of `s` has key `k`.
pub open spec fn has_key<K, V>(s: Seq<(K, V)>, k: K) -> bool {
    exists|i: int| 0 <= i < s.len() && #[trigger] s[i].0 == k
}

/// No key occurs twice in `s`.
pub open spec fn keys_unique<K, V>(s: Seq<(K, V)>) -> bool {
    forall|i: int, j: int| 0 <= i < s.len() && 0 <= j < s.len() && i != j ==> #[trigger] s[i].0 != #[trigger] s[j].0
}

/// The map that `s` stands for: each key to the value paired with it.
pub open spec fn assoc<K, V>(s: Seq<(K, V)>) -> Map<K, V> {
    Map::new(
        |k: K| has_key(s, k),
        |k: K| s[choose|i: int| 0 <= i < s.len() && #[trigger] s[i].0 == k].1,
    )
}

/// The pairs of string-keyed list, with each key replaced by its characters.
pub open spec fn keyed_by_chars<V>(s: Seq<(String, V)>) -> Seq<(Seq<char>, V)> {
    s.map_values(|p: (String, V)| (p.0@, p.1))
}

/// With unique keys, the map gives each pair's key that pair's value.
pub proof fn lemma_assoc_at<K, V>(s: Seq<(K, V)>, i: int)
    requires
        keys_unique(s),
        0 <= i < s.len(),
    ensures
        assoc(s).contains_key(s[i].0),
        assoc(s)[s[i].0] == s[i].1,
{
    assert(has_key(s, s[i].0));
    let j = choose|j: int| 0 <= j < s.len() && #[trigger] s[j].0 == s[i].0;
    assert(j == i);
}

/// `lemma_assoc_at` for every pair at once.
pub proof fn lemma_assoc_all<K, V>(s: Seq<(K, V)>)
    requires
        keys_unique(s),
    ensures
        forall|i: int| 0 <= i < s.len() ==> assoc(s).contains_key(#[trigger] s[i].0) && assoc(s)[s[i].0] == s[i].1,
{
    assert forall|i: int| 0 <= i < s.len() implies assoc(s).contains_key(#[trigger] s[i].0) && assoc(s)[s[i].0]
        == s[i].1 by {
        lemma_assoc_at(s, i);
    }
}

/// Appending a pair with a new key inserts it into the map.
pub proof fn lemma_assoc_push<K, V>(s: Seq<(K, V)>, k: K, v: V)
    requires
        keys_unique(s),
        !assoc(s).contains_key(k),
    ensures
        keys_unique(s.push((k, v))),
        assoc(s.push((k, v))) == assoc(s).insert(k, v),
{
    let t = s.push((k, v));
    assert forall|i: int| 0 <= i < s.len() implies #[trigger] s[i].0 != k by {
        assert(has_key(s, s[i].0));
    }
    assert(keys_unique(t));
    lemma_assoc_all(s);
    lemma_assoc_all(t);
    assert forall|x: K| #[trigger] has_key(t, x) <==> has_key(s, x) || x == k by {
        if has_key(t, x) {
            let i = choose|i: int| 0 <= i < t.len() && #[trigger] t[i].0 == x;
            if i < s.len() {
                assert(s[i].0 == x);
            }
        }
        if has_key(s, x) {
            let i = choose|i: int| 0 <= i < s.len() && #[trigger] s[i].0 == x;
            assert(t[i].0 == x);
        }
        if x == k {
            assert(t[s.len() as int].0 == x);
        }
    }
    assert forall|x: K| assoc(t).contains_key(x) implies assoc(t)[x] == assoc(s).insert(k, v)[x] by {
        let i = choose|i: int| 0 <= i < t.len() && #[trigger] t[i].0 == x;
        if i < s.len() {
            assert(s[i].0 == x);
        }
    }
    assert(assoc(t) =~= assoc(s).insert(k, v));
}

/// Changing the value of one pair changes the map at its key.
pub proof fn lemma_assoc_update<K, V>(s: Seq<(K, V)>, i: int, v: V)
    requires
        keys_unique(s),
        0 <= i < s.len(),
    ensures
        keys_unique(s.update(i, (s[i].0, v))),
        assoc(s.update(i, (s[i].0, v))) == assoc(s).insert(s[i].0, v),
{
    let t = s.update(i, (s[i].0, v));
    assert(keys_unique(t));
    lemma_assoc_all(s);
    lemma_assoc_all(t);
    assert forall|x: K| #[trigger] has_key(t, x) <==> has_key(s, x) by {
        if has_key(t, x) {
            let j = choose|j: int| 0 <= j < t.len() && #[trigger] t[j].0 == x;
            assert(s[j].0 == x);
        }
        if has_key(s, x) {
            let j = choose|j: int| 0 <= j < s.len() && #[trigger] s[j].0 == x;
            assert(t[j].0 == x);
        }
    }
    assert forall|x: K| assoc(t).contains_key(x) implies assoc(t)[x] == assoc(s).insert(s[i].0, v)[x] by {
        let j = choose|j: int| 0 <= j < t.len() && #[trigger] t[j].0 == x;
        assert(s[j].0 == x);
    }
    assert(assoc(t) =~= assoc(s).insert(s[i].0, v));
}

/// Removing a pair removes its key from the map.
pub proof fn lemma_assoc_remove<K, V>(s: Seq<(K, V)>, i: int)
    requires
        keys_unique(s),
        0 <= i < s.len(),
    ensures
        keys_unique(s.remove(i)),
        assoc(s.remove(i)) == assoc(s).remove(s[i].0),
{
    let t = s.remove(i);
    assert forall|a: int, b: int| 0 <= a < t.len() && 0 <= b < t.len() && a != b implies #[trigger] t[a].0
        != #[trigger] t[b].0 by {
        let a2 = if a < i { a } else { a + 1 };
        let b2 = if b < i { b } else { b + 1 };
        assert(t[a] == s[a2]);
        assert(t[b] == s[b2]);
    }
    lemma_assoc_all(s);
    lemma_assoc_all(t);
    assert forall|x: K| #[trigger] has_key(t, x) <==> has_key(s, x) && x != s[i].0 by {
        if has_key(t, x) {
            let j = choose|j: int| 0 <= j < t.len() && #[trigger] t[j].0 == x;
            let j2 = if j < i { j } else { j + 1 };
            assert(s[j2].0 == x);
        }
        if has_key(s, x) && x != s[i].0 {
            let j = choose|j: int| 0 <= j < s.len() && #[trigger] s[j].0 == x;
            if j < i {
                assert(t[j].0 == x);
            } else {
                assert(t[j - 1].0 == x);
            }
        }
    }
    assert forall|x: K| assoc(t).contains_key(x) implies assoc(t)[x] == assoc(s).remove(s[i].0)[x] by {
        let j = choose|j: int| 0 <= j < t.len() && #[trigger] t[j].0 == x;
        let j2 = if j < i { j } else { j + 1 };
        assert(s[j2].0 == x);
    }
    assert(assoc(t) =~= assoc(s).remove(s[i].0));
}

/// Changing every value by `f`, keys in place, changes the map by `f`.
pub proof fn lemma_assoc_map_values<K, V>(s: Seq<(K, V)>, t: Seq<(K, V)>, f: spec_fn(V) -> V)
    requires
        keys_unique(s),
        s.len() == t.len(),
        forall|j: int| 0 <= j < s.len() ==> (#[trigger] t[j]).0 == s[j].0 && t[j].1 == f(s[j].1),
    ensures
        keys_unique(t),
        assoc(t) == Map::new(|k: K| assoc(s).contains_key(k), |k: K| f(assoc(s)[k])),
{
    assert forall|a: int, b: int| 0 <= a < t.len() && 0 <= b < t.len() && a != b implies #[trigger] t[a].0
        != #[trigger] t[b].0 by {
        assert(t[a].0 == s[a].0);
        assert(t[b].0 == s[b].0);
    }
    lemma_assoc_all(s);
    lemma_assoc_all(t);
    let m = Map::new(|k: K| assoc(s).contains_key(k), |k: K| f(assoc(s)[k]));
    assert forall|x: K| #[trigger] has_key(t, x) <==> has_key(s, x) by {
        if has_key(t, x) {
            let j = choose|j: int| 0 <= j < t.len() && #[trigger] t[j].0 == x;
            assert(s[j].0 == x);
        }
        if has_key(s, x) {
            let j = choose|j: int| 0 <= j < s.len() && #[trigger] s[j].0 == x;
            assert(t[j].0 == x);
        }
    }
    assert forall|x: K| assoc(t).contains_key(x) implies assoc(t)[x] == m[x] by {
        let j = choose|j: int| 0 <= j < t.len() && #[trigger] t[j].0 == x;
        assert(s[j].0 == x);
    }
    assert(assoc(t) =~= m);
}

/// The part of `m` whose entries satisfy `keep`.
pub open spec fn kept<K, V>(m: Map<K, V>, keep: spec_fn(K, V) -> bool) -> Map<K, V> {
    Map::new(|k: K| m.contains_key(k) && keep(k, m[k]), |k: K| m[k])
}

/// One step of filtering `s` into `t`: after the first `i` pairs are looked at, `t`
/// holds those that `keep` accepts; the next pair is pushed exactly when it is kept.
pub proof fn lemma_assoc_filter_step<K, V>(s: Seq<(K, V)>, t: Seq<(K, V)>, i: int, keep: spec_fn(K, V) -> bool)
    requires
        keys_unique(s),
        0 <= i < s.len(),
        keys_unique(t),
        assoc(t) == kept(assoc(s.take(i)), keep),
    ensures
        keep(s[i].0, s[i].1) ==> keys_unique(t.push(s[i])) && assoc(t.push(s[i])) == kept(assoc(s.take(i + 1)), keep),
        !keep(s[i].0, s[i].1) ==> assoc(t) == kept(assoc(s.take(i + 1)), keep),
{
    let p = s.take(i);
    assert(keys_unique(p));
    assert(s.take(i + 1) =~= p.push(s[i]));
    if has_key(p, s[i].0) {
        let j = choose|j: int| 0 <= j < p.len() && #[trigger] p[j].0 == s[i].0;
        assert(s[j].0 == s[i].0);
    }
    lemma_assoc_push(p, s[i].0, s[i].1);
    assert(!assoc(t).contains_key(s[i].0));
    if keep(s[i].0, s[i].1) {
        lemma_assoc_push(t, s[i].0, s[i].1);
        assert(assoc(t.push(s[i])) =~= kept(assoc(s.take(i + 1)), keep));
    } else {
        assert(assoc(t) =~= kept(assoc(s.take(i + 1)), keep));
    }
}

/// Filtering starts from the empty list, which stands for the empty part of the map.
pub proof fn lemma_assoc_filter_start<K, V>(s: Seq<(K, V)>, keep: spec_fn(K, V) -> bool)
    ensures
        keys_unique(Seq::<(K, V)>::empty()),
        assoc(Seq::<(K, V)>::empty()) == kept(assoc(s.take(0)), keep),
{
    assert(assoc(Seq::<(K, V)>::empty()) =~= kept(assoc(s.take(0)), keep));
}

/// Reading keys as characters commutes with appending.
pub proof fn lemma_keyed_by_chars_push<V>(s: Seq<(String, V)>, k: String, v: V)
    ensures
        keyed_by_chars(s.push((k, v))) == keyed_by_chars(s).push((k@, v)),
{
    assert(keyed_by_chars(s.push((k, v))) =~= keyed_by_chars(s).push((k@, v)));
}

/// Reading keys as characters commutes with removing.
pub proof fn lemma_keyed_by_chars_remove<V>(s: Seq<(String, V)>, i: int)
    requires
        0 <= i < s.len(),
    ensures
        keyed_by_chars(s.remove(i)) == keyed_by_chars(s).remove(i),
{
    assert(keyed_by_chars(s.remove(i)) =~= keyed_by_chars(s).remove(i));
}

} // verus!
