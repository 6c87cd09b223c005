//! Association sequences: the mathematical model shared by the content
//! map and by the index (field → bucket, value → ids), with the lemmas
//! that relate first-match lookup to pointwise updates.

use vstd::prelude::*;

verus! {

/// The value bound to key `k` (first match).
pub open spec fn assoc_get<K, V>(s: Seq<(K, V)>, k: K) -> Option<V>
    decreases s.len(),
{
    if s.len() == 0 {
        None
    } else if s[0].0 == k {
        Some(s[0].1)
    } else {
        assoc_get(s.drop_first(), k)
    }
}

/// No key occurs twice: the sequence is a mapping.
pub open spec fn assoc_unique<K, V>(s: Seq<(K, V)>) -> bool {
    forall|i: int, j: int| 0 <= i < j < s.len() ==> s[i].0 != s[j].0
}

/// Dropping the head keeps the keys unique.
pub proof fn lemma_assoc_unique_drop_first<K, V>(s: Seq<(K, V)>)
    requires
        assoc_unique(s),
        s.len() > 0,
    ensures
        assoc_unique(s.drop_first()),
{
    assert forall|x: int, y: int| 0 <= x < y < s.drop_first().len()
        implies s.drop_first()[x].0 != s.drop_first()[y].0 by {
        assert(s.drop_first()[x] == s[x + 1]);
        assert(s.drop_first()[y] == s[y + 1]);
    }
}

/// With unique keys, looking up the key at position `i` finds position `i`.
pub proof fn lemma_assoc_get_at<K, V>(s: Seq<(K, V)>, i: int)
    requires
        assoc_unique(s),
        0 <= i < s.len(),
    ensures
        assoc_get(s, s[i].0) == Some(s[i].1),
    decreases s.len(),
{
    if i > 0 {
        assert(s[0].0 != s[i].0);
        assert(s.drop_first()[i - 1] == s[i]);
        lemma_assoc_unique_drop_first(s);
        lemma_assoc_get_at(s.drop_first(), i - 1);
    }
}

/// A found value sits at some position of the sequence.
pub proof fn lemma_assoc_get_position<K, V>(s: Seq<(K, V)>, k: K)
    requires
        assoc_get(s, k) is Some,
    ensures
        exists|i: int| 0 <= i < s.len() && s[i].0 == k && s[i].1 == assoc_get(s, k)->Some_0,
    decreases s.len(),
{
    if s.len() > 0 && s[0].0 != k {
        lemma_assoc_get_position(s.drop_first(), k);
        let i = choose|i: int| 0 <= i < s.drop_first().len() && s.drop_first()[i].0 == k
            && s.drop_first()[i].1 == assoc_get(s.drop_first(), k)->Some_0;
        assert(s[i + 1] == s.drop_first()[i]);
    }
}

/// If the first `i` keys all miss `k`, position `i` decides the lookup on
/// a hit, and a full miss decides it negatively.
pub proof fn lemma_assoc_prefix_miss<K, V>(s: Seq<(K, V)>, k: K, i: int)
    requires
        0 <= i <= s.len(),
        forall|j: int| 0 <= j < i ==> s[j].0 != k,
    ensures
        i < s.len() && s[i].0 == k ==> assoc_get(s, k) == Some(s[i].1),
        i == s.len() ==> assoc_get(s, k) is None,
    decreases i,
{
    if i > 0 {
        assert(s[0].0 != k);
        assert(forall|j: int| 0 <= j < i - 1 ==> s.drop_first()[j] == s[j + 1]);
        lemma_assoc_prefix_miss(s.drop_first(), k, i - 1);
        if i < s.len() {
            assert(s.drop_first()[i - 1] == s[i]);
        }
        assert(assoc_get(s, k) == assoc_get(s.drop_first(), k));
    }
}

/// Replacing the value at position `i` changes only that key's binding.
pub proof fn lemma_assoc_update<K, V>(s: Seq<(K, V)>, i: int, k: K, v: V)
    requires
        assoc_unique(s),
        0 <= i < s.len(),
        s[i].0 == k,
    ensures
        assoc_unique(s.update(i, (k, v))),
        assoc_get(s.update(i, (k, v)), k) == Some(v),
        forall|g: K| g != k ==> assoc_get(s.update(i, (k, v)), g) == assoc_get(s, g),
    decreases s.len(),
{
    let u = s.update(i, (k, v));
    assert(forall|x: int| 0 <= x < s.len() && x != i ==> u[x] == s[x]);
    assert(forall|x: int| 0 <= x < s.len() ==> u[x].0 == s[x].0);
    assert(assoc_unique(u));
    if i == 0 {
        assert(u[0] == (k, v));
        assert(u.drop_first() =~= s.drop_first());
        assert(assoc_get(u, k) == Some(v));
        assert forall|g: K| g != k implies assoc_get(u, g) == assoc_get(s, g) by {
            assert(s[0].0 == k);
            assert(assoc_get(u, g) == assoc_get(u.drop_first(), g));
            assert(assoc_get(s, g) == assoc_get(s.drop_first(), g));
        }
    } else {
        assert(s[0].0 != k);
        assert(u[0] == s[0]);
        assert(u.drop_first() =~= s.drop_first().update(i - 1, (k, v)));
        lemma_assoc_unique_drop_first(s);
        assert(s.drop_first()[i - 1].0 == k);
        lemma_assoc_update(s.drop_first(), i - 1, k, v);
        assert(assoc_get(u, k) == assoc_get(u.drop_first(), k));
        assert forall|g: K| g != k implies assoc_get(u, g) == assoc_get(s, g) by {
            if u[0].0 == g {
                assert(assoc_get(u, g) == Some(u[0].1));
                assert(assoc_get(s, g) == Some(s[0].1));
            } else {
                assert(assoc_get(u, g) == assoc_get(u.drop_first(), g));
                assert(assoc_get(s, g) == assoc_get(s.drop_first(), g));
            }
        }
    }
}

/// Appending a fresh key binds it and leaves every other key alone.
pub proof fn lemma_assoc_push<K, V>(s: Seq<(K, V)>, k: K, v: V)
    requires
        assoc_unique(s),
        forall|j: int| 0 <= j < s.len() ==> s[j].0 != k,
    ensures
        assoc_unique(s.push((k, v))),
        assoc_get(s.push((k, v)), k) == Some(v),
        forall|g: K| g != k ==> assoc_get(s.push((k, v)), g) == assoc_get(s, g),
    decreases s.len(),
{
    let u = s.push((k, v));
    assert(forall|x: int| 0 <= x < s.len() ==> u[x] == s[x]);
    assert(u[s.len() as int] == (k, v));
    assert(assoc_unique(u));
    if s.len() == 0 {
        assert(u[0] == (k, v));
        assert(assoc_get(u, k) == Some(v));
        assert forall|g: K| g != k implies assoc_get(u, g) == assoc_get(s, g) by {
            assert(assoc_get(u, g) == assoc_get(u.drop_first(), g));
            assert(u.drop_first().len() == 0);
            assert(assoc_get(u.drop_first(), g) is None);
            assert(assoc_get(s, g) is None);
        }
    } else {
        assert(u[0] == s[0]);
        assert(s[0].0 != k);
        assert(u.drop_first() =~= s.drop_first().push((k, v)));
        lemma_assoc_unique_drop_first(s);
        assert(forall|j: int| 0 <= j < s.drop_first().len() ==> s.drop_first()[j] == s[j + 1]);
        lemma_assoc_push(s.drop_first(), k, v);
        assert(assoc_get(u, k) == assoc_get(u.drop_first(), k));
        assert forall|g: K| g != k implies assoc_get(u, g) == assoc_get(s, g) by {
            if u[0].0 == g {
                assert(assoc_get(u, g) == Some(u[0].1));
                assert(assoc_get(s, g) == Some(s[0].1));
            } else {
                assert(assoc_get(u, g) == assoc_get(u.drop_first(), g));
                assert(assoc_get(s, g) == assoc_get(s.drop_first(), g));
            }
        }
    }
}

/// Removing position `i` unbinds its key and leaves every other key alone.
pub proof fn lemma_assoc_remove<K, V>(s: Seq<(K, V)>, i: int)
    requires
        assoc_unique(s),
        0 <= i < s.len(),
    ensures
        assoc_unique(s.remove(i)),
        assoc_get(s.remove(i), s[i].0) is None,
        forall|g: K| g != s[i].0 ==> assoc_get(s.remove(i), g) == assoc_get(s, g),
    decreases s.len(),
{
    let u = s.remove(i);
    assert(forall|x: int| 0 <= x < i ==> u[x] == s[x]);
    assert(forall|x: int| i <= x < u.len() ==> u[x] == s[x + 1]);
    assert(assoc_unique(u));
    if i == 0 {
        assert(u =~= s.drop_first());
        if assoc_get(u, s[0].0) is Some {
            lemma_assoc_get_position(u, s[0].0);
            let j = choose|j: int| 0 <= j < u.len() && u[j].0 == s[0].0
                && u[j].1 == assoc_get(u, s[0].0)->Some_0;
            assert(s[j + 1].0 == s[0].0);
            assert(false);
        }
        assert(assoc_get(u, s[0].0) is None);
        assert forall|g: K| g != s[0].0 implies assoc_get(u, g) == assoc_get(s, g) by {
            assert(assoc_get(s, g) == assoc_get(s.drop_first(), g));
        }
    } else {
        assert(u[0] == s[0]);
        assert(u.drop_first() =~= s.drop_first().remove(i - 1));
        lemma_assoc_unique_drop_first(s);
        assert(s.drop_first()[i - 1] == s[i]);
        lemma_assoc_remove(s.drop_first(), i - 1);
        assert(s[0].0 != s[i].0);
        assert(assoc_get(u, s[i].0) == assoc_get(u.drop_first(), s[i].0));
        assert forall|g: K| g != s[i].0 implies assoc_get(u, g) == assoc_get(s, g) by {
            if u[0].0 == g {
                assert(assoc_get(u, g) == Some(u[0].1));
                assert(assoc_get(s, g) == Some(s[0].1));
            } else {
                assert(assoc_get(u, g) == assoc_get(u.drop_first(), g));
                assert(assoc_get(s, g) == assoc_get(s.drop_first(), g));
            }
        }
    }
}

} // verus!
