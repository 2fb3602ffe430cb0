//! Association lists: sequences of key/value pairs whose keys are pairwise
//! distinct, read as finite maps.
use vstd::prelude::*;

verus! {

/// No key occurs twice.
pub open spec fn keys_unique<K, V>(s: Seq<(K, V)>) -> bool {
    forall|i: int, j: int|
        0 <= i < s.len() && 0 <= j < s.len() && #[trigger] s[i].0 == #[trigger] s[j].0 ==> i == j
}

/// Some pair has key `k`.
pub open spec fn has_key<K, V>(s: Seq<(K, V)>, k: K) -> bool {
    exists|i: int| 0 <= i < s.len() && #[trigger] s[i].0 == k
}

/// The map that the list stands for.
pub open spec fn to_map<K, V>(s: Seq<(K, V)>) -> Map<K, V> {
    Map::new(
        |k: K| has_key(s, k),
        |k: K| s[choose|i: int| 0 <= i < s.len() && #[trigger] s[i].0 == k].1,
    )
}

pub proof fn lemma_to_map_index<K, V>(s: Seq<(K, V)>, i: int)
    requires
        keys_unique(s),
        0 <= i < s.len(),
    ensures
        to_map(s).contains_key(s[i].0),
        to_map(s)[s[i].0] == s[i].1,
{
    let k = s[i].0;
    assert(has_key(s, k));
    let j = choose|j: int| 0 <= j < s.len() && #[trigger] s[j].0 == k;
    assert(s[j].0 == s[i].0);
}

pub proof fn lemma_to_map_push<K, V>(s: Seq<(K, V)>, k: K, v: V)
    requires
        keys_unique(s),
        !has_key(s, k),
    ensures
        keys_unique(s.push((k, v))),
        to_map(s.push((k, v))) == to_map(s).insert(k, v),
{
    let t = s.push((k, v));
    assert forall|i: int, j: int|
        0 <= i < t.len() && 0 <= j < t.len() && #[trigger] t[i].0 == #[trigger] t[j].0 implies i == j by {
        if i < s.len() && j < s.len() {
            assert(s[i].0 == s[j].0);
        } else if i < s.len() {
            assert(s[i].0 == k);
        } else if j < s.len() {
            assert(s[j].0 == k);
        }
    }
    assert forall|q: K| #[trigger] to_map(t).contains_key(q) <==> to_map(s).insert(k, v).contains_key(q) by {
        if has_key(s, q) {
            let i = choose|i: int| 0 <= i < s.len() && #[trigger] s[i].0 == q;
            assert(t[i].0 == q);
        }
        if has_key(t, q) && q != k {
            let i = choose|i: int| 0 <= i < t.len() && #[trigger] t[i].0 == q;
            assert(s[i].0 == q);
        }
        assert(t[s.len() as int].0 == k);
    }
    assert forall|q: K| #[trigger] to_map(t).contains_key(q) implies to_map(t)[q] == to_map(s).insert(k, v)[q] by {
        let i = choose|i: int| 0 <= i < t.len() && #[trigger] t[i].0 == q;
        lemma_to_map_index(t, i);
        if i < s.len() {
            assert(s[i] == t[i]);
            lemma_to_map_index(s, i);
        }
    }
    assert(to_map(t) =~= to_map(s).insert(k, v));
}

pub proof fn lemma_to_map_update<K, V>(s: Seq<(K, V)>, i: int, v: V)
    requires
        keys_unique(s),
        0 <= i < s.len(),
    ensures
        keys_unique(s.update(i, (s[i].0, v))),
        to_map(s.update(i, (s[i].0, v))) == to_map(s).insert(s[i].0, v),
{
    let k = s[i].0;
    let t = s.update(i, (k, v));
    assert forall|a: int, b: int|
        0 <= a < t.len() && 0 <= b < t.len() && #[trigger] t[a].0 == #[trigger] t[b].0 implies a == b by {
        assert(t[a].0 == s[a].0);
        assert(t[b].0 == s[b].0);
    }
    assert forall|q: K| #[trigger] to_map(t).contains_key(q) <==> to_map(s).insert(k, v).contains_key(q) by {
        if has_key(s, q) {
            let a = choose|a: int| 0 <= a < s.len() && #[trigger] s[a].0 == q;
            assert(t[a].0 == q);
        }
        if has_key(t, q) {
            let a = choose|a: int| 0 <= a < t.len() && #[trigger] t[a].0 == q;
            assert(s[a].0 == q);
        }
        assert(t[i].0 == k);
    }
    assert forall|q: K| #[trigger] to_map(t).contains_key(q) implies to_map(t)[q] == to_map(s).insert(k, v)[q] by {
        let a = choose|a: int| 0 <= a < t.len() && #[trigger] t[a].0 == q;
        lemma_to_map_index(t, a);
        if a != i {
            assert(s[a] == t[a]);
            lemma_to_map_index(s, a);
        }
    }
    assert(to_map(t) =~= to_map(s).insert(k, v));
}

pub proof fn lemma_to_map_remove<K, V>(s: Seq<(K, V)>, i: int)
    requires
        keys_unique(s),
        0 <= i < s.len(),
    ensures
        keys_unique(s.remove(i)),
        to_map(s.remove(i)) == to_map(s).remove(s[i].0),
{
    let k = s[i].0;
    let t = s.remove(i);
    assert forall|a: int, b: int|
        0 <= a < t.len() && 0 <= b < t.len() && #[trigger] t[a].0 == #[trigger] t[b].0 implies a == b by {
        let a2 = if a < i { a } else { a + 1 };
        let b2 = if b < i { b } else { b + 1 };
        assert(t[a] == s[a2]);
        assert(t[b] == s[b2]);
    }
    assert forall|q: K| #[trigger] to_map(t).contains_key(q) <==> to_map(s).remove(k).contains_key(q) by {
        if has_key(s, q) && q != k {
            let a = choose|a: int| 0 <= a < s.len() && #[trigger] s[a].0 == q;
            if a < i {
                assert(t[a].0 == q);
            } else {
                assert(a != i);
                assert(t[a - 1].0 == q);
            }
        }
        if has_key(t, q) {
            let a = choose|a: int| 0 <= a < t.len() && #[trigger] t[a].0 == q;
            let a2 = if a < i { a } else { a + 1 };
            assert(s[a2].0 == q);
            assert(a2 != i);
        }
    }
    assert forall|q: K| #[trigger] to_map(t).contains_key(q) implies to_map(t)[q] == to_map(s).remove(k)[q] by {
        let a = choose|a: int| 0 <= a < t.len() && #[trigger] t[a].0 == q;
        let a2 = if a < i { a } else { a + 1 };
        assert(t[a] == s[a2]);
        lemma_to_map_index(t, a);
        lemma_to_map_index(s, a2);
    }
    assert(to_map(t) =~= to_map(s).remove(k));
}

pub proof fn lemma_to_map_empty<K, V>(s: Seq<(K, V)>)
    requires
        s.len() == 0,
    ensures
        keys_unique(s),
        to_map(s) == Map::<K, V>::empty(),
{
    assert(to_map(s) =~= Map::<K, V>::empty());
}

} // verus!
