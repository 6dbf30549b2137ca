//! Scoped data: values keyed by a type token, shared by reference counting.
use std::sync::Arc;
use vstd::prelude::*;

verus! {

/// Relies on `Arc::clone`: the new handle points at the same value.
#[verifier::external_body]
pub(crate) fn share<V>(a: &Arc<V>) -> (r: Arc<V>)
    ensures
        r == *a,
{
    Arc::clone(a)
}

/// One binding of a store: a type token and the value bound to it.
pub struct DataEntry<V> {
    pub key: u64,
    pub value: Arc<V>,
}

/// Index `i` is the first entry of `entries` bound to `key`.
pub open spec fn is_first_entry<V>(entries: Seq<DataEntry<V>>, key: u64, i: int) -> bool {
    &&& 0 <= i < entries.len()
    &&& entries[i].key == key
    &&& forall|j: int| 0 <= j < i ==> entries[j].key != key
}

/// The bindings that a list of entries stands for: the first entry of a key
/// gives its value.
pub open spec fn entries_map<V>(entries: Seq<DataEntry<V>>) -> Map<u64, V> {
    Map::new(
        |k: u64| exists|i: int| is_first_entry(entries, k, i),
        |k: u64| *entries[choose|i: int| is_first_entry(entries, k, i)].value,
    )
}

proof fn lemma_first_unique<V>(entries: Seq<DataEntry<V>>, key: u64, i: int, j: int)
    requires
        is_first_entry(entries, key, i),
        is_first_entry(entries, key, j),
    ensures
        i == j,
{
    if i < j {
        assert(entries[i].key != key);
    } else if j < i {
        assert(entries[j].key != key);
    }
}

proof fn lemma_lookup<V>(entries: Seq<DataEntry<V>>, key: u64, i: int)
    requires
        is_first_entry(entries, key, i),
    ensures
        entries_map(entries).dom().contains(key),
        entries_map(entries)[key] == *entries[i].value,
{
    let c = choose|n: int| is_first_entry(entries, key, n);
    lemma_first_unique(entries, key, i, c);
}

proof fn lemma_absent<V>(entries: Seq<DataEntry<V>>, key: u64)
    requires
        forall|j: int| 0 <= j < entries.len() ==> entries[j].key != key,
    ensures
        !entries_map(entries).dom().contains(key),
{
}

/// Overwriting the first entry of a key rebinds that key alone.
proof fn lemma_update_first<V>(entries: Seq<DataEntry<V>>, i: int, e: DataEntry<V>)
    requires
        is_first_entry(entries, e.key, i),
    ensures
        entries_map(entries.update(i, e)) == entries_map(entries).insert(e.key, *e.value),
{
    let post = entries.update(i, e);
    assert forall|k: u64, n: int| is_first_entry(post, k, n) <==> is_first_entry(entries, k, n) by {
        if 0 <= n < entries.len() {
            assert forall|j: int| 0 <= j <= n implies post[j].key == entries[j].key by {}
        }
    }
    assert forall|k: u64| k != e.key && #[trigger] entries_map(entries).dom().contains(k) implies
        entries_map(post)[k] == entries_map(entries)[k] by {
        let n = choose|n: int| is_first_entry(entries, k, n);
        lemma_lookup(entries, k, n);
        lemma_lookup(post, k, n);
    }
    lemma_lookup(post, e.key, i);
    assert(entries_map(post) =~= entries_map(entries).insert(e.key, *e.value));
}

/// Appending an entry for a key that is not bound binds it.
proof fn lemma_push_absent<V>(entries: Seq<DataEntry<V>>, e: DataEntry<V>)
    requires
        forall|j: int| 0 <= j < entries.len() ==> entries[j].key != e.key,
    ensures
        entries_map(entries.push(e)) == entries_map(entries).insert(e.key, *e.value),
{
    let post = entries.push(e);
    assert forall|k: u64, n: int| k != e.key implies is_first_entry(post, k, n) <==> is_first_entry(entries, k, n) by {
        if 0 <= n < entries.len() {
            assert forall|j: int| 0 <= j <= n implies post[j] == entries[j] by {}
        }
    }
    assert forall|k: u64| k != e.key && #[trigger] entries_map(entries).dom().contains(k) implies
        entries_map(post)[k] == entries_map(entries)[k] by {
        let n = choose|n: int| is_first_entry(entries, k, n);
        lemma_lookup(entries, k, n);
        lemma_lookup(post, k, n);
    }
    assert(is_first_entry(post, e.key, entries.len() as int));
    lemma_lookup(post, e.key, entries.len() as int);
    assert(entries_map(post) =~= entries_map(entries).insert(e.key, *e.value));
}

/// An entry put in front binds its key over the rest.
proof fn lemma_prepend<V>(e: DataEntry<V>, rest: Seq<DataEntry<V>>)
    ensures
        entries_map(seq![e] + rest) == entries_map(rest).insert(e.key, *e.value),
{
    let s = seq![e] + rest;
    assert(is_first_entry(s, e.key, 0));
    lemma_lookup(s, e.key, 0);
    assert forall|k: u64, n: int| k != e.key implies #[trigger] is_first_entry(s, k, n + 1) <==> is_first_entry(rest, k, n) by {
        if is_first_entry(rest, k, n) {
            assert forall|j: int| 0 <= j < n + 1 implies s[j].key != k by {
                if j > 0 {
                    assert(s[j] == rest[j - 1]);
                }
            }
        }
        if is_first_entry(s, k, n + 1) {
            assert forall|j: int| 0 <= j < n implies rest[j].key != k by {
                assert(s[j + 1] == rest[j]);
            }
        }
    }
    assert forall|k: u64| k != e.key implies #[trigger] entries_map(s).dom().contains(k) == entries_map(rest).dom().contains(k) by {
        if entries_map(s).dom().contains(k) {
            let n = choose|n: int| is_first_entry(s, k, n);
            assert(n != 0);
            assert(is_first_entry(s, k, (n - 1) + 1));
            assert(is_first_entry(rest, k, n - 1));
        }
        if entries_map(rest).dom().contains(k) {
            let n = choose|n: int| is_first_entry(rest, k, n);
            assert(is_first_entry(s, k, n + 1));
        }
    }
    assert forall|k: u64| k != e.key && #[trigger] entries_map(rest).dom().contains(k) implies
        entries_map(s)[k] == entries_map(rest)[k] by {
        let n = choose|n: int| is_first_entry(rest, k, n);
        lemma_lookup(rest, k, n);
        assert(is_first_entry(s, k, n + 1));
        lemma_lookup(s, k, n + 1);
    }
    assert(entries_map(s) =~= entries_map(rest).insert(e.key, *e.value));
}

/// A store holding at most one value per type token.
///
/// A key stands for the identity of a type: callers pick one token per kind
/// of value they inject, and look values up by that token.
pub struct DataContainer<V> {
    entries: Vec<DataEntry<V>>,
}

impl<V> DataContainer<V> {
    /// The bindings of the store, as a map from type token to value.
    pub closed spec fn view(&self) -> Map<u64, V> {
        entries_map(self.entries@)
    }

    /// A store with no bindings.
    pub fn new() -> (r: Self)
        ensures
            r@ == Map::<u64, V>::empty(),
    {
        let r = DataContainer { entries: Vec::new() };
        assert(r@ =~= Map::<u64, V>::empty());
        r
    }

    /// Index of the first entry bound to `key`, if there is one.
    fn find(&self, key: u64) -> (r: Option<usize>)
        ensures
            match r {
                Some(i) => is_first_entry(self.entries@, key, i as int),
                None => forall|j: int| 0 <= j < self.entries@.len() ==> self.entries@[j].key != key,
            },
    {
        let mut i: usize = 0;
        while i < self.entries.len()
            invariant
                0 <= i <= self.entries@.len(),
                forall|j: int| 0 <= j < i ==> self.entries@[j].key != key,
            decreases self.entries@.len() - i,
        {
            if self.entries[i].key == key {
                return Some(i);
            }
            i = i + 1;
        }
        None
    }

    /// Binds `key` to the shared value `value`, replacing any earlier binding.
    pub fn add_arc(&mut self, key: u64, value: Arc<V>)
        ensures
            final(self)@ == old(self)@.insert(key, *value),
    {
        let ghost pre = self.entries@;
        let e = DataEntry { key, value };
        match self.find(key) {
            Some(i) => {
                proof {
                    lemma_update_first(pre, i as int, e);
                }
                self.entries.set(i, e);
            },
            None => {
                proof {
                    lemma_push_absent(pre, e);
                }
                self.entries.push(e);
            },
        }
    }

    /// Binds `key` to `value`, replacing any earlier binding.
    pub fn add(&mut self, key: u64, value: V)
        ensures
            final(self)@ == old(self)@.insert(key, value),
    {
        self.add_arc(key, Arc::new(value));
    }

    /// The value bound to `key`, if any.
    pub fn get(&self, key: u64) -> (r: Option<Arc<V>>)
        ensures
            r is Some <==> self@.dom().contains(key),
            r is Some ==> *r->0 == self@[key],
    {
        match self.find(key) {
            Some(i) => {
                proof {
                    lemma_lookup(self.entries@, key, i as int);
                }
                Some(share(&self.entries[i].value))
            },
            None => None,
        }
    }

    /// Whether `key` is bound.
    pub fn contains(&self, key: u64) -> (r: bool)
        ensures
            r == self@.dom().contains(key),
    {
        self.find(key).is_some()
    }

    /// Adds to `self` the entries of `from` from index `lo` on, last to
    /// first, so that the first entry of each key binds it.
    fn add_all_from(&mut self, from: &Self, lo: usize)
        requires
            lo <= from.entries@.len(),
        ensures
            final(self)@ == old(self)@.union_prefer_right(entries_map(from.entries@.subrange(lo as int, from.entries@.len() as int))),
    {
        let n = from.entries.len();
        let mut j: usize = n;
        proof {
            assert(from.entries@.subrange(n as int, n as int) =~= Seq::<DataEntry<V>>::empty());
            assert(old(self)@.union_prefer_right(entries_map(Seq::<DataEntry<V>>::empty())) =~= old(self)@);
        }
        while j > lo
            invariant
                lo <= j <= n,
                n == from.entries@.len(),
                self@ == old(self)@.union_prefer_right(entries_map(from.entries@.subrange(j as int, n as int))),
            decreases j,
        {
            j = j - 1;
            let ghost tail = from.entries@.subrange(j + 1, n as int);
            let ghost e = from.entries@[j as int];
            proof {
                assert(from.entries@.subrange(j as int, n as int) =~= seq![e] + tail);
                lemma_prepend(e, tail);
                assert(old(self)@.union_prefer_right(entries_map(tail).insert(e.key, *e.value))
                    =~= old(self)@.union_prefer_right(entries_map(tail)).insert(e.key, *e.value));
            }
            self.add_arc(from.entries[j].key, share(&from.entries[j].value));
        }
    }

    /// A new store holding the bindings of `self` and of `other`, where those
    /// of `other` win on a shared key.
    pub fn combine(&self, other: &Self) -> (r: Self)
        ensures
            r@ == self@.union_prefer_right(other@),
    {
        let mut r = DataContainer::new();
        r.add_all_from(self, 0);
        r.add_all_from(other, 0);
        proof {
            assert(self.entries@.subrange(0, self.entries@.len() as int) =~= self.entries@);
            assert(other.entries@.subrange(0, other.entries@.len() as int) =~= other.entries@);
            assert(Map::<u64, V>::empty().union_prefer_right(self@) =~= self@);
        }
        r
    }
}

impl<V> Default for DataContainer<V> {
    fn default() -> (r: Self)
        ensures
            r@ == Map::<u64, V>::empty(),
    {
        DataContainer::new()
    }
}

} // verus!
