//! First-match lookup in a sequence of keys.

use vstd::prelude::*;

verus! {

/// Whether `i` is the first place in `keys` that holds `k`.
pub open spec fn first_at<K>(keys: Seq<K>, k: K, i: int) -> bool {
    &&& 0 <= i < keys.len()
    &&& keys[i] == k
    &&& forall|j: int| 0 <= j < i ==> #[trigger] keys[j] != k
}

/// The first place in `keys` that holds `k`, where there is one.
pub open spec fn index_of<K>(keys: Seq<K>, k: K) -> int {
    choose|i: int| first_at(keys, k, i)
}

/// There is one first place only.
pub proof fn lemma_index_unique<K>(keys: Seq<K>, k: K, i: int)
    requires
        first_at(keys, k, i),
    ensures
        index_of(keys, k) == i,
        keys.contains(k),
{
    let c = index_of(keys, k);
    assert(first_at(keys, k, c));
    if c < i {
        assert(keys[c] != k);
    }
    if i < c {
        assert(keys[i] != k);
    }
}

/// A key that occurs at place `n` has a first place.
pub proof fn lemma_first_exists<K>(keys: Seq<K>, k: K, n: int)
    requires
        0 <= n < keys.len(),
        keys[n] == k,
    ensures
        first_at(keys, k, index_of(keys, k)),
        index_of(keys, k) <= n,
    decreases n,
{
    if exists|j: int| 0 <= j < n && keys[j] == k {
        let j = choose|j: int| 0 <= j < n && keys[j] == k;
        lemma_first_exists(keys, k, j);
    } else {
        assert(first_at(keys, k, n));
        lemma_index_unique(keys, k, n);
    }
}

/// Where `b` begins with all of `a`, a key of `a` is found in `b` at the same
/// place.
pub proof fn lemma_index_stable<K>(a: Seq<K>, b: Seq<K>, k: K)
    requires
        a.len() <= b.len(),
        forall|j: int| 0 <= j < a.len() ==> a[j] == b[j],
        a.contains(k),
    ensures
        b.contains(k),
        first_at(a, k, index_of(a, k)),
        index_of(b, k) == index_of(a, k),
{
    let n = choose|n: int| 0 <= n < a.len() && a[n] == k;
    lemma_first_exists(a, k, n);
    let i = index_of(a, k);
    assert(b[i] == k);
    assert forall|j: int| 0 <= j < i implies #[trigger] b[j] != k by {
        assert(a[j] != k);
    }
    lemma_index_unique(b, k, i);
}

} // verus!
