//! A map from paths to values that keeps its entries in ascending order of
//! the paths, each path at most once.

use vstd::prelude::*;
use crate::path::{
    lemma_path_lt_asymmetric, lemma_path_lt_connected, lemma_path_lt_transitive, path_lt,
    valid_segments, RefLike,
};

verus! {

/// Keys in strictly ascending order.
pub open spec fn ascending(keys: Seq<Seq<Seq<char>>>) -> bool {
    forall|i: int, j: int|
        0 <= i < j < keys.len() ==> path_lt(#[trigger] keys[i], #[trigger] keys[j])
}

/// How many of `keys` come strictly before `key`. In an ascending sequence
/// this is the position at which `key` stands or would have to be put.
pub open spec fn rank(keys: Seq<Seq<Seq<char>>>, key: Seq<Seq<char>>) -> int
    decreases keys.len(),
{
    if keys.len() == 0 {
        0
    } else if path_lt(keys.last(), key) {
        rank(keys.drop_last(), key) + 1
    } else {
        rank(keys.drop_last(), key)
    }
}

/// The keys after `key` is put in: unchanged where it is there already.
pub open spec fn keys_with(keys: Seq<Seq<Seq<char>>>, key: Seq<Seq<char>>) -> Seq<Seq<Seq<char>>> {
    if keys.contains(key) {
        keys
    } else {
        keys.insert(rank(keys, key), key)
    }
}

/// The values after `value` is put in under `key`: it takes the place of
/// the value that stood under `key`, if there was one.
pub open spec fn values_with<V>(
    keys: Seq<Seq<Seq<char>>>,
    values: Seq<V>,
    key: Seq<Seq<char>>,
    value: V,
) -> Seq<V> {
    if keys.contains(key) {
        values.update(rank(keys, key), value)
    } else {
        values.insert(rank(keys, key), value)
    }
}

/// The rank is a position of the sequence, or its length.
pub proof fn lemma_rank_bounds(keys: Seq<Seq<Seq<char>>>, key: Seq<Seq<char>>)
    ensures
        0 <= rank(keys, key) <= keys.len(),
    decreases keys.len(),
{
    if keys.len() > 0 {
        lemma_rank_bounds(keys.drop_last(), key);
    }
}

/// In an ascending sequence, the position before which every key comes
/// before `key` and at which the key does not is the rank of `key`.
pub proof fn lemma_rank_is_position(keys: Seq<Seq<Seq<char>>>, key: Seq<Seq<char>>, at: int)
    requires
        ascending(keys),
        0 <= at <= keys.len(),
        forall|i: int| 0 <= i < at ==> path_lt(#[trigger] keys[i], key),
        at < keys.len() ==> !path_lt(keys[at], key),
    ensures
        rank(keys, key) == at,
    decreases keys.len(),
{
    if keys.len() > 0 {
        let front = keys.drop_last();
        assert forall|i: int, j: int| 0 <= i < j < front.len() implies path_lt(
            #[trigger] front[i],
            #[trigger] front[j],
        ) by {
            assert(path_lt(keys[i], keys[j]));
        }
        if at == keys.len() {
            lemma_rank_is_position(front, key, at - 1);
        } else {
            if at < keys.len() - 1 && path_lt(keys.last(), key) {
                assert(path_lt(keys[at], keys[keys.len() - 1]));
                lemma_path_lt_transitive(keys[at], keys.last(), key, 0);
            }
            lemma_rank_is_position(front, key, at);
        }
    }
}

/// In an ascending sequence, the rank of a key that it holds is the
/// position of that key.
pub proof fn lemma_rank_of_member(keys: Seq<Seq<Seq<char>>>, i: int)
    requires
        ascending(keys),
        0 <= i < keys.len(),
    ensures
        rank(keys, keys[i]) == i,
{
    crate::path::lemma_path_lt_irreflexive(keys[i], 0);
    lemma_rank_is_position(keys, keys[i], i);
}

/// An ascending sequence holds no key twice.
pub proof fn lemma_ascending_distinct(keys: Seq<Seq<Seq<char>>>, i: int, j: int)
    requires
        ascending(keys),
        0 <= i < keys.len(),
        0 <= j < keys.len(),
        keys[i] == keys[j],
    ensures
        i == j,
{
    crate::path::lemma_path_lt_irreflexive(keys[i], 0);
    if i < j {
        assert(path_lt(keys[i], keys[j]));
    }
    if j < i {
        assert(path_lt(keys[j], keys[i]));
    }
}

/// Putting a key into an ascending sequence of valid paths keeps it
/// ascending; the keys that were there keep their order, and the new key
/// stands at its rank.
pub proof fn lemma_keys_with(keys: Seq<Seq<Seq<char>>>, key: Seq<Seq<char>>)
    requires
        ascending(keys),
    ensures
        ascending(keys_with(keys, key)),
        keys_with(keys, key).contains(key),
        forall|k: Seq<Seq<char>>| keys.contains(k) ==> keys_with(keys, key).contains(k),
        forall|k: Seq<Seq<char>>| #[trigger]
            keys_with(keys, key).contains(k) ==> k == key || keys.contains(k),
        0 <= rank(keys, key) <= keys.len(),
        keys.contains(key) ==> rank(keys, key) < keys.len() && keys[rank(keys, key)] == key,
{
    lemma_rank_bounds(keys, key);
    let at = rank(keys, key);
    let now = keys_with(keys, key);
    if keys.contains(key) {
        let i = choose|i: int| 0 <= i < keys.len() && keys[i] == key;
        lemma_rank_of_member(keys, i);
    } else {
        lemma_rank_split(keys, key);
        assert(now[at] == key);
        assert forall|i: int, j: int| 0 <= i < j < now.len() implies path_lt(
            #[trigger] now[i],
            #[trigger] now[j],
        ) by {
            if j < at {
                assert(now[i] == keys[i] && now[j] == keys[j]);
            } else if j == at {
                assert(now[i] == keys[i]);
            } else if i < at {
                assert(now[i] == keys[i] && now[j] == keys[j - 1]);
            } else if i == at {
                assert(now[j] == keys[j - 1]);
                assert(keys.contains(keys[j - 1]));
                lemma_path_lt_asymmetric_or_equal(key, keys[j - 1]);
            } else {
                assert(now[i] == keys[i - 1] && now[j] == keys[j - 1]);
            }
        }
        assert forall|k: Seq<Seq<char>>| keys.contains(k) implies now.contains(k) by {
            let i = choose|i: int| 0 <= i < keys.len() && keys[i] == k;
            if i < at {
                assert(now[i] == k);
            } else {
                assert(now[i + 1] == k);
            }
        }
        assert forall|k: Seq<Seq<char>>| #[trigger] now.contains(k) implies k == key
            || keys.contains(k) by {
            let i = choose|i: int| 0 <= i < now.len() && now[i] == k;
            if i < at {
                assert(keys[i] == k);
            } else if i > at {
                assert(keys[i - 1] == k);
            }
        }
    }
}

/// In an ascending sequence, the keys before the rank of `key` come before
/// `key`, and those from the rank on do not.
pub proof fn lemma_rank_split(keys: Seq<Seq<Seq<char>>>, key: Seq<Seq<char>>)
    requires
        ascending(keys),
    ensures
        0 <= rank(keys, key) <= keys.len(),
        forall|i: int| 0 <= i < rank(keys, key) ==> path_lt(#[trigger] keys[i], key),
        forall|i: int| rank(keys, key) <= i < keys.len() ==> !path_lt(#[trigger] keys[i], key),
    decreases keys.len(),
{
    lemma_rank_bounds(keys, key);
    if keys.len() > 0 {
        let front = keys.drop_last();
        assert forall|i: int, j: int| 0 <= i < j < front.len() implies path_lt(
            #[trigger] front[i],
            #[trigger] front[j],
        ) by {
            assert(path_lt(keys[i], keys[j]));
        }
        lemma_rank_split(front, key);
        let r = rank(front, key);
        if path_lt(keys.last(), key) {
            assert forall|i: int| 0 <= i < keys.len() implies path_lt(#[trigger] keys[i], key) by {
                if i < keys.len() - 1 {
                    assert(path_lt(keys[i], keys[keys.len() - 1]));
                    lemma_path_lt_transitive(keys[i], keys.last(), key, 0);
                }
            }
            assert(r == front.len()) by {
                if r < front.len() {
                    assert(!path_lt(front[r], key));
                    assert(front[r] == keys[r]);
                }
            }
        } else {
            assert forall|i: int| 0 <= i < r implies path_lt(#[trigger] keys[i], key) by {
                assert(keys[i] == front[i]);
            }
            assert forall|i: int| r <= i < keys.len() implies !path_lt(#[trigger] keys[i], key) by {
                if i < keys.len() - 1 {
                    assert(keys[i] == front[i]);
                }
            }
        }
    }
}

/// An entry of the map.
#[derive(Debug)]
pub struct Entry<V> {
    key: RefLike,
    value: V,
}

/// A map from paths to values, kept in ascending order of the paths.
#[derive(Debug)]
pub struct SortedMap<V> {
    entries: Vec<Entry<V>>,
}

impl<V> SortedMap<V> {
    /// The keys, in the order in which they are kept.
    pub closed spec fn keys(&self) -> Seq<Seq<Seq<char>>> {
        Seq::new(self.entries@.len(), |i: int| self.entries@[i].key@)
    }

    /// The values, in the order of their keys.
    pub closed spec fn values(&self) -> Seq<V> {
        Seq::new(self.entries@.len(), |i: int| self.entries@[i].value)
    }

    #[verifier::type_invariant]
    closed spec fn inv(&self) -> bool {
        &&& ascending(self.keys())
        &&& forall|i: int| 0 <= i < self.keys().len() ==> valid_segments(#[trigger] self.keys()[i])
    }

    /// The keys ascend, there are as many values as keys, and each key is
    /// a valid path.
    pub open spec fn wf(&self) -> bool {
        &&& ascending(self.keys())
        &&& self.keys().len() == self.values().len()
        &&& forall|i: int| 0 <= i < self.keys().len() ==> valid_segments(#[trigger] self.keys()[i])
    }

    /// The empty map.
    pub fn new() -> (out: Self)
        ensures
            out.wf(),
            out.keys() == Seq::<Seq<Seq<char>>>::empty(),
            out.values() == Seq::<V>::empty(),
    {
        let out = SortedMap { entries: Vec::new() };
        assert(out.keys() =~= Seq::<Seq<Seq<char>>>::empty());
        assert(out.values() =~= Seq::<V>::empty());
        out
    }

    /// The number of entries.
    pub fn len(&self) -> (n: usize)
        ensures
            n == self.keys().len(),
            self.wf(),
    {
        proof {
            use_type_invariant(self);
        }
        self.entries.len()
    }

    /// The key at position `i`.
    pub fn key_at(&self, i: usize) -> (key: &RefLike)
        requires
            i < self.keys().len(),
        ensures
            key@ == self.keys()[i as int],
    {
        &self.entries[i].key
    }

    /// The value at position `i`.
    pub fn value_at(&self, i: usize) -> (value: &V)
        requires
            i < self.values().len(),
        ensures
            *value == self.values()[i as int],
    {
        &self.entries[i].value
    }

    /// The first position whose key does not come before `key`.
    pub fn position(&self, key: &RefLike) -> (at: usize)
        ensures
            at == rank(self.keys(), key@),
            at <= self.keys().len(),
            forall|i: int| 0 <= i < at ==> path_lt(#[trigger] self.keys()[i], key@),
            at < self.keys().len() ==> !path_lt(self.keys()[at as int], key@),
            self.keys().contains(key@) <==> at < self.keys().len() && self.keys()[at as int]
                == key@,
    {
        let mut at: usize = 0;
        while at < self.entries.len() && self.entries[at].key.precedes(key)
            invariant
                at <= self.entries@.len(),
                forall|i: int| 0 <= i < at ==> path_lt(#[trigger] self.keys()[i], key@),
            decreases self.entries@.len() - at,
        {
            at += 1;
        }
        proof {
            use_type_invariant(self);
            let keys = self.keys();
            lemma_rank_is_position(keys, key@, at as int);
            if keys.contains(key@) {
                let k = choose|k: int| 0 <= k < keys.len() && keys[k] == key@;
                crate::path::lemma_path_lt_irreflexive(key@, 0);
                if k < at {
                    assert(path_lt(keys[k], key@));
                }
                if k > at {
                    assert(path_lt(keys[at as int], keys[k]));
                }
            }
        }
        at
    }

    /// The position of `key`, if the map holds it.
    pub fn find(&self, key: &RefLike) -> (out: Option<usize>)
        ensures
            out is Some <==> self.keys().contains(key@),
            out matches Some(i) ==> i < self.keys().len() && self.keys()[i as int] == key@,
    {
        let at = self.position(key);
        if at < self.entries.len() && !key.precedes(&self.entries[at].key) {
            proof {
                let here = self.keys()[at as int];
                lemma_path_lt_connected(here, key@, 0);
            }
            Some(at)
        } else {
            proof {
                if at < self.entries.len() {
                    lemma_path_lt_asymmetric(key@, self.keys()[at as int]);
                }
            }
            None
        }
    }

    /// The map with `value` under `key`, in the place of the value that
    /// stood there, if any.
    pub fn insert(self, key: RefLike, value: V) -> (out: Self)
        ensures
            self.wf(),
            out.wf(),
            out.keys() == keys_with(self.keys(), key@),
            out.values() == values_with(self.keys(), self.values(), key@, value),
    {
        let ghost keys = self.keys();
        let ghost values = self.values();
        proof {
            use_type_invariant(&self);
            use_type_invariant(&key);
        }
        let at = self.position(&key);
        let present = at < self.entries.len() && !key.precedes(&self.entries[at].key);
        proof {
            if at < self.entries.len() {
                if present {
                    lemma_path_lt_connected(keys[at as int], key@, 0);
                } else {
                    lemma_path_lt_asymmetric(key@, keys[at as int]);
                }
            }
            assert(present == keys.contains(key@));
        }
        let ghost new_key = key@;
        let mut entries = self.entries;
        let entry = Entry { key, value };
        if present {
            entries.set(at, entry);
            let ghost now = Seq::new(entries@.len(), |i: int| entries@[i].key@);
            assert(now =~= keys);
            let out = SortedMap { entries };
            assert(out.keys() =~= keys);
            assert(out.values() =~= values.update(at as int, value));
            out
        } else {
            entries.insert(at, entry);
            let ghost now = Seq::new(entries@.len(), |i: int| entries@[i].key@);
            assert(now =~= keys.insert(at as int, new_key));
            assert forall|i: int, j: int| 0 <= i < j < now.len() implies path_lt(
                #[trigger] now[i],
                #[trigger] now[j],
            ) by {
                if j < at {
                    assert(now[i] == keys[i] && now[j] == keys[j]);
                } else if j == at {
                    assert(now[i] == keys[i]);
                } else if i < at {
                    assert(now[i] == keys[i] && now[j] == keys[j - 1]);
                } else if i == at {
                    assert(now[j] == keys[j - 1]);
                    let head = keys[at as int];
                    lemma_path_lt_asymmetric_or_equal(new_key, head);
                    if j - 1 > at {
                        assert(path_lt(keys[at as int], keys[j - 1]));
                        lemma_path_lt_transitive(new_key, head, keys[j - 1], 0);
                    }
                } else {
                    assert(now[i] == keys[i - 1] && now[j] == keys[j - 1]);
                }
            }
            assert forall|i: int| 0 <= i < now.len() implies valid_segments(#[trigger] now[i]) by {
                if i < at {
                    assert(now[i] == keys[i]);
                } else if i > at {
                    assert(now[i] == keys[i - 1]);
                }
            }
            let out = SortedMap { entries };
            assert(out.keys() =~= now);
            assert(out.values() =~= values.insert(at as int, value));
            out
        }
    }
}

/// Of two different paths, the one that the other does not come before
/// comes before the other.
pub proof fn lemma_path_lt_asymmetric_or_equal(a: Seq<Seq<char>>, b: Seq<Seq<char>>)
    requires
        !path_lt(b, a),
        a != b,
    ensures
        path_lt(a, b),
{
    if !path_lt(a, b) {
        lemma_path_lt_connected(a, b, 0);
    }
}

} // verus!
