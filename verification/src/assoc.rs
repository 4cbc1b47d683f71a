//! Association sequences: a finite map kept as a sequence of key/value pairs
//! in which no key occurs twice.

use vstd::prelude::*;

verus! {

/// No key occurs at two positions.
pub open spec fn distinct_keys<K, V>(s: Seq<(K, V)>) -> bool {
    forall|i: int, j: int| 0 <= i < j < s.len() ==> (#[trigger] s[i]).0 != (#[trigger] s[j]).0
}

/// Some position holds the key.
pub open spec fn has_key<K, V>(s: Seq<(K, V)>, k: K) -> bool {
    exists|i: int| 0 <= i < s.len() && (#[trigger] s[i]).0 == k
}

/// A position that holds the key, if there is one.
pub open spec fn position<K, V>(s: Seq<(K, V)>, k: K) -> int {
    choose|i: int| 0 <= i < s.len() && (#[trigger] s[i]).0 == k
}

/// The map that the pairs spell out.
pub open spec fn as_map<K, V>(s: Seq<(K, V)>) -> Map<K, V> {
    Map::new(|k: K| has_key(s, k), |k: K| s[position(s, k)].1)
}

/// Each pair of the sequence is a binding of the map.
pub proof fn lemma_as_map_at<K, V>(s: Seq<(K, V)>, i: int)
    requires
        distinct_keys(s),
        0 <= i < s.len(),
    ensures
        as_map(s).contains_key(s[i].0),
        as_map(s)[s[i].0] == s[i].1,
{
    let k = s[i].0;
    assert(has_key(s, k));
    let p = position(s, k);
    assert(0 <= p < s.len() && s[p].0 == k);
    if p < i {
        assert(s[p].0 != s[i].0);
    } else if i < p {
        assert(s[i].0 != s[p].0);
    }
}

/// Each binding of the map is a pair of the sequence.
pub proof fn lemma_as_map_key<K, V>(s: Seq<(K, V)>, k: K) -> (i: int)
    requires
        distinct_keys(s),
        as_map(s).contains_key(k),
    ensures
        0 <= i < s.len(),
        s[i].0 == k,
        s[i].1 == as_map(s)[k],
{
    assert(has_key(s, k));
    position(s, k)
}

/// Appending a pair under a fresh key inserts it into the map.
pub proof fn lemma_as_map_push<K, V>(s: Seq<(K, V)>, k: K, v: V)
    requires
        distinct_keys(s),
        !has_key(s, k),
    ensures
        distinct_keys(s.push((k, v))),
        as_map(s.push((k, v))) == as_map(s).insert(k, v),
{
    let t = s.push((k, v));
    assert forall|i: int, j: int| 0 <= i < j < t.len() implies (#[trigger] t[i]).0 != (
    #[trigger] t[j]).0 by {
        assert(t[i] == s[i]);
        if j < s.len() {
            assert(t[j] == s[j]);
        }
    }
    assert forall|q: K| as_map(t).contains_key(q) <==> as_map(s).insert(k, v).contains_key(
        q,
    ) by {
        if has_key(t, q) {
            let p = position(t, q);
            if p < s.len() {
                assert(s[p].0 == q);
            }
        }
        if has_key(s, q) {
            let p = position(s, q);
            assert(t[p].0 == q);
        }
        if q == k {
            assert(t[s.len() as int].0 == q);
        }
    }
    assert forall|q: K| as_map(t).contains_key(q) implies as_map(t)[q] == as_map(s).insert(
        k,
        v,
    )[q] by {
        let p = lemma_as_map_key(t, q);
        if p < s.len() {
            assert(s[p] == t[p]);
            lemma_as_map_at(s, p);
        }
    }
    assert(as_map(t) =~= as_map(s).insert(k, v));
}

/// Replacing the value at a position rebinds that position's key.
pub proof fn lemma_as_map_update<K, V>(s: Seq<(K, V)>, i: int, v: V)
    requires
        distinct_keys(s),
        0 <= i < s.len(),
    ensures
        distinct_keys(s.update(i, (s[i].0, v))),
        as_map(s.update(i, (s[i].0, v))) == as_map(s).insert(s[i].0, v),
{
    let k = s[i].0;
    let t = s.update(i, (k, v));
    assert forall|a: int, b: int| 0 <= a < b < t.len() implies (#[trigger] t[a]).0 != (
    #[trigger] t[b]).0 by {
        assert(t[a].0 == s[a].0);
        assert(t[b].0 == s[b].0);
    }
    assert forall|q: K| as_map(t).contains_key(q) <==> as_map(s).insert(k, v).contains_key(
        q,
    ) by {
        if has_key(t, q) {
            let p = position(t, q);
            assert(s[p].0 == q);
        }
        if has_key(s, q) {
            let p = position(s, q);
            assert(t[p].0 == q);
        }
        if q == k {
            assert(t[i].0 == q);
        }
    }
    assert forall|q: K| as_map(t).contains_key(q) implies as_map(t)[q] == as_map(s).insert(
        k,
        v,
    )[q] by {
        let p = lemma_as_map_key(t, q);
        assert(s[p].0 == q);
        lemma_as_map_at(s, p);
    }
    assert(as_map(t) =~= as_map(s).insert(k, v));
}

/// Deleting a position unbinds that position's key.
pub proof fn lemma_as_map_remove<K, V>(s: Seq<(K, V)>, i: int)
    requires
        distinct_keys(s),
        0 <= i < s.len(),
    ensures
        distinct_keys(s.remove(i)),
        as_map(s.remove(i)) == as_map(s).remove(s[i].0),
{
    let k = s[i].0;
    let t = s.remove(i);
    assert forall|a: int| 0 <= a < t.len() implies #[trigger] t[a] == s[if a < i {
        a
    } else {
        a + 1
    }] by {}
    assert forall|a: int, b: int| 0 <= a < b < t.len() implies (#[trigger] t[a]).0 != (
    #[trigger] t[b]).0 by {
        let a2 = if a < i { a } else { a + 1 };
        let b2 = if b < i { b } else { b + 1 };
        assert(t[a] == s[a2]);
        assert(t[b] == s[b2]);
        assert(s[a2].0 != s[b2].0);
    }
    assert forall|q: K| as_map(t).contains_key(q) <==> as_map(s).remove(k).contains_key(q) by {
        if has_key(t, q) {
            let p = position(t, q);
            let p2 = if p < i { p } else { p + 1 };
            assert(t[p] == s[p2]);
            assert(s[p2].0 == q);
            if p2 < i {
                assert(s[p2].0 != s[i].0);
            } else {
                assert(s[i].0 != s[p2].0);
            }
        }
        if has_key(s, q) && q != k {
            let p = position(s, q);
            let p1 = if p < i { p } else { p - 1 };
            assert(t[p1] == s[p]);
            assert(t[p1].0 == q);
        }
    }
    assert forall|q: K| as_map(t).contains_key(q) implies as_map(t)[q] == as_map(s).remove(
        k,
    )[q] by {
        let p = lemma_as_map_key(t, q);
        let p2 = if p < i { p } else { p + 1 };
        assert(t[p] == s[p2]);
        lemma_as_map_at(s, p2);
    }
    assert(as_map(t) =~= as_map(s).remove(k));
}

/// The map has as many bindings as the sequence has pairs.
pub proof fn lemma_as_map_len<K, V>(s: Seq<(K, V)>)
    requires
        distinct_keys(s),
    ensures
        as_map(s).dom().finite(),
        as_map(s).dom().len() == s.len(),
    decreases s.len(),
{
    if s.len() == 0 {
        assert(as_map(s).dom() =~= Set::<K>::empty());
    } else {
        let t = s.drop_last();
        let last = s.last();
        assert forall|i: int, j: int| 0 <= i < j < t.len() implies (#[trigger] t[i]).0 != (
        #[trigger] t[j]).0 by {
            assert(t[i] == s[i]);
            assert(t[j] == s[j]);
        }
        lemma_as_map_len(t);
        if has_key(t, last.0) {
            let p = position(t, last.0);
            assert(t[p] == s[p]);
            assert(s[p].0 != s[s.len() - 1].0);
        }
        lemma_as_map_push(t, last.0, last.1);
        assert(t.push((last.0, last.1)) =~= s);
        assert(!as_map(t).dom().contains(last.0));
    }
}

} // verus!
