//! First-match lookup in lists of keyed items.
use vstd::prelude::*;

verus! {

/// Index of the first occurrence of `key` in `keys`, or -1.
pub open spec fn first_index<K>(keys: Seq<K>, key: K) -> int
    decreases keys.len(),
{
    if keys.len() == 0 {
        -1
    } else if first_index(keys.drop_last(), key) >= 0 {
        first_index(keys.drop_last(), key)
    } else if keys.last() == key {
        keys.len() - 1
    } else {
        -1
    }
}

pub proof fn lemma_first_index_range<K>(keys: Seq<K>, key: K)
    ensures
        -1 <= first_index(keys, key) < keys.len(),
        first_index(keys, key) >= 0 ==> keys[first_index(keys, key)] == key,
        first_index(keys, key) >= 0 ==> forall|j: int| 0 <= j < first_index(keys, key) ==> keys[j] != key,
        first_index(keys, key) < 0 ==> forall|j: int| 0 <= j < keys.len() ==> keys[j] != key,
    decreases keys.len(),
{
    if keys.len() > 0 {
        lemma_first_index_range(keys.drop_last(), key);
        assert forall|j: int| 0 <= j < keys.len() - 1 implies keys.drop_last()[j] == keys[j] by {}
    }
}

/// The first index is the unique index at which `key` stands and before
/// which it does not.
pub proof fn lemma_first_index_at<K>(keys: Seq<K>, key: K, i: int)
    requires
        0 <= i < keys.len(),
        keys[i] == key,
        forall|j: int| 0 <= j < i ==> keys[j] != key,
    ensures
        first_index(keys, key) == i,
    decreases keys.len(),
{
    lemma_first_index_range(keys, key);
    if i < keys.len() - 1 {
        lemma_first_index_at(keys.drop_last(), key, i);
    } else {
        lemma_first_index_range(keys.drop_last(), key);
    }
}

pub proof fn lemma_first_index_push<K>(keys: Seq<K>, x: K, key: K)
    ensures
        first_index(keys.push(x), key) == if first_index(keys, key) >= 0 {
            first_index(keys, key)
        } else if x == key {
            keys.len() as int
        } else {
            -1
        },
{
    assert(keys.push(x).drop_last() =~= keys);
}

} // verus!
