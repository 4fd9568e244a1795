//! Association lists: a list of key-value pairs as the finite map it stands for.

use vstd::prelude::*;

verus! {

/// The map a list of pairs stands for; of two pairs with one key the later counts.
pub open spec fn assoc<K, V>(s: Seq<(K, V)>) -> Map<K, V>
    decreases s.len(),
{
    if s.len() == 0 {
        Map::empty()
    } else {
        assoc(s.drop_last()).insert(s.last().0, s.last().1)
    }
}

/// No key occurs twice.
pub open spec fn distinct<K, V>(s: Seq<(K, V)>) -> bool {
    forall|i: int, j: int|
        0 <= i < s.len() && 0 <= j < s.len() && i != j ==> (#[trigger] s[i]).0 != (
        #[trigger] s[j]).0
}

/// The keys of the map are those of the list.
pub proof fn lemma_assoc_dom<K, V>(s: Seq<(K, V)>, k: K)
    ensures
        assoc(s).contains_key(k) <==> exists|i: int| 0 <= i < s.len() && (#[trigger] s[i]).0 == k,
        assoc(s).dom().finite(),
    decreases s.len(),
{
    if s.len() > 0 {
        let t = s.drop_last();
        lemma_assoc_dom(t, k);
        assert(s[s.len() - 1] == s.last());
        if exists|i: int| 0 <= i < s.len() && (#[trigger] s[i]).0 == k {
            let i = choose|i: int| 0 <= i < s.len() && (#[trigger] s[i]).0 == k;
            if i < t.len() {
                assert(t[i].0 == k);
            }
        }
        if exists|i: int| 0 <= i < t.len() && (#[trigger] t[i]).0 == k {
            let i = choose|i: int| 0 <= i < t.len() && (#[trigger] t[i]).0 == k;
            assert(s[i].0 == k);
        }
    }
}

/// Under distinct keys the map gives back each pair, and is as large as the list.
pub proof fn lemma_assoc_get<K, V>(s: Seq<(K, V)>)
    requires
        distinct(s),
    ensures
        forall|i: int|
            0 <= i < s.len() ==> assoc(s).contains_key((#[trigger] s[i]).0) && assoc(s)[s[i].0]
                == s[i].1,
        assoc(s).dom().finite(),
        assoc(s).len() == s.len(),
    decreases s.len(),
{
    if s.len() > 0 {
        let t = s.drop_last();
        assert(distinct(t));
        lemma_assoc_get(t);
        lemma_assoc_dom(t, s.last().0);
        assert(!assoc(t).contains_key(s.last().0)) by {
            if assoc(t).contains_key(s.last().0) {
                let i = choose|i: int| 0 <= i < t.len() && (#[trigger] t[i]).0 == s.last().0;
                assert(s[i].0 == s[s.len() - 1].0);
            }
        }
        assert forall|i: int| 0 <= i < s.len() implies assoc(s).contains_key((#[trigger] s[i]).0)
            && assoc(s)[s[i].0] == s[i].1 by {
            if i < t.len() {
                assert(t[i] == s[i]);
                assert(s[i].0 != s[s.len() - 1].0);
            }
        }
    }
}

/// A map that holds exactly the pairs of the list is the map of the list.
pub proof fn lemma_assoc_is<K, V>(s: Seq<(K, V)>, m: Map<K, V>)
    requires
        distinct(s),
        forall|i: int|
            0 <= i < s.len() ==> m.contains_key((#[trigger] s[i]).0) && m[s[i].0] == s[i].1,
        forall|k: K| #[trigger]
            m.contains_key(k) ==> exists|i: int| 0 <= i < s.len() && (#[trigger] s[i]).0 == k,
    ensures
        assoc(s) == m,
{
    lemma_assoc_get(s);
    assert forall|k: K| #[trigger] assoc(s).contains_key(k) == m.contains_key(k) by {
        lemma_assoc_dom(s, k);
    }
    assert forall|k: K| #[trigger] assoc(s).contains_key(k) implies assoc(s)[k] == m[k] by {
        lemma_assoc_dom(s, k);
        let i = choose|i: int| 0 <= i < s.len() && (#[trigger] s[i]).0 == k;
        assert(assoc(s)[s[i].0] == s[i].1);
    }
    assert(assoc(s) =~= m);
}

/// Replacing the value of one pair replaces it in the map.
pub proof fn lemma_assoc_update<K, V>(s: Seq<(K, V)>, i: int, v: V)
    requires
        distinct(s),
        0 <= i < s.len(),
    ensures
        distinct(s.update(i, (s[i].0, v))),
        assoc(s.update(i, (s[i].0, v))) == assoc(s).insert(s[i].0, v),
{
    let t = s.update(i, (s[i].0, v));
    let m = assoc(s).insert(s[i].0, v);
    lemma_assoc_get(s);
    assert forall|a: int, b: int| 0 <= a < t.len() && 0 <= b < t.len() && a != b implies (
    #[trigger] t[a]).0 != (#[trigger] t[b]).0 by {
        assert(s[a].0 != s[b].0);
    }
    assert forall|a: int| 0 <= a < t.len() implies m.contains_key((#[trigger] t[a]).0) && m[t[a].0]
        == t[a].1 by {
        if a != i {
            assert(t[a] == s[a]);
            assert(s[a].0 != s[i].0);
        }
    }
    assert forall|k: K| #[trigger] m.contains_key(k) implies exists|a: int|
        0 <= a < t.len() && (#[trigger] t[a]).0 == k by {
        if k == s[i].0 {
            assert(t[i].0 == k);
        } else {
            lemma_assoc_dom(s, k);
            let a = choose|a: int| 0 <= a < s.len() && (#[trigger] s[a]).0 == k;
            assert(t[a].0 == k);
        }
    }
    lemma_assoc_is(t, m);
}

/// Inserting a pair with a new key, wherever in the list, inserts it into the map.
pub proof fn lemma_assoc_insert<K, V>(s: Seq<(K, V)>, i: int, k: K, v: V)
    requires
        distinct(s),
        0 <= i <= s.len(),
        !assoc(s).contains_key(k),
    ensures
        distinct(s.insert(i, (k, v))),
        assoc(s.insert(i, (k, v))) == assoc(s).insert(k, v),
{
    let t = s.insert(i, (k, v));
    let m = assoc(s).insert(k, v);
    lemma_assoc_get(s);
    assert forall|a: int| 0 <= a < t.len() implies #[trigger] t[a] == (if a < i {
        s[a]
    } else if a == i {
        (k, v)
    } else {
        s[a - 1]
    }) by {}
    assert forall|a: int| 0 <= a < s.len() implies (#[trigger] s[a]).0 != k by {
        assert(assoc(s).contains_key(s[a].0));
    }
    assert forall|a: int, b: int| 0 <= a < t.len() && 0 <= b < t.len() && a != b implies (
    #[trigger] t[a]).0 != (#[trigger] t[b]).0 by {
        let a0 = if a < i { a } else { a - 1 };
        let b0 = if b < i { b } else { b - 1 };
        if a != i && b != i {
            assert(s[a0].0 != s[b0].0);
        } else if a != i {
            assert(s[a0].0 != k);
        } else {
            assert(s[b0].0 != k);
        }
    }
    assert forall|a: int| 0 <= a < t.len() implies m.contains_key((#[trigger] t[a]).0) && m[t[a].0]
        == t[a].1 by {
        if a < i {
            assert(s[a].0 != k);
        } else if a > i {
            assert(s[a - 1].0 != k);
        }
    }
    assert forall|x: K| #[trigger] m.contains_key(x) implies exists|a: int|
        0 <= a < t.len() && (#[trigger] t[a]).0 == x by {
        if x == k {
            assert(t[i].0 == x);
        } else {
            lemma_assoc_dom(s, x);
            let a = choose|a: int| 0 <= a < s.len() && (#[trigger] s[a]).0 == x;
            if a < i {
                assert(t[a].0 == x);
            } else {
                assert(t[a + 1].0 == x);
            }
        }
    }
    lemma_assoc_is(t, m);
}

/// Dropping the first pair removes its key from the map.
pub proof fn lemma_assoc_drop_first<K, V>(s: Seq<(K, V)>)
    requires
        distinct(s),
        s.len() > 0,
    ensures
        distinct(s.drop_first()),
        assoc(s.drop_first()) == assoc(s).remove(s[0].0),
{
    let t = s.drop_first();
    let m = assoc(s).remove(s[0].0);
    lemma_assoc_get(s);
    assert forall|a: int| 0 <= a < t.len() implies #[trigger] t[a] == s[a + 1] by {}
    assert forall|a: int| 0 <= a < t.len() implies m.contains_key((#[trigger] t[a]).0) && m[t[a].0]
        == t[a].1 by {
        assert(s[a + 1].0 != s[0].0);
    }
    assert forall|x: K| #[trigger] m.contains_key(x) implies exists|a: int|
        0 <= a < t.len() && (#[trigger] t[a]).0 == x by {
        lemma_assoc_dom(s, x);
        let a = choose|a: int| 0 <= a < s.len() && (#[trigger] s[a]).0 == x;
        assert(t[a - 1].0 == x);
    }
    lemma_assoc_is(t, m);
}

} // verus!
