//! The table itself: an array of buckets, each bucket an ordered chain of
//! key-value entries, with a running count of stored items.
//!
//! The abstract model of a table is a `Map` from key views to values. A
//! key's entry lives in the chain at index `hash mod bucket count`, and a
//! scan of that chain from the front finds it; `buckets_get` is exactly
//! that scan, and the view is the map it induces.

use crate::keys::HashKey;
use vstd::prelude::*;

verus! {

/// Whether some entry of `chain` has key view `k`.
pub open spec fn chain_has_key<K: HashKey, V>(chain: Seq<(K, V)>, k: K::V) -> bool {
    exists|i: int| 0 <= i < chain.len() && chain[i].0@ == k
}

/// What a front-to-back scan of `chain` finds for key view `k`:
/// the value of the first entry whose key matches, if any.
pub open spec fn chain_get<K: HashKey, V>(chain: Seq<(K, V)>, k: K::V) -> Option<V>
    decreases chain.len(),
{
    if chain.len() == 0 {
        None
    } else if chain[0].0@ == k {
        Some(chain[0].1)
    } else {
        chain_get(chain.skip(1), k)
    }
}

/// No two entries of `chain` share a key view.
pub open spec fn chain_distinct<K: HashKey, V>(chain: Seq<(K, V)>) -> bool {
    forall|i: int, j: int| 0 <= i < j < chain.len() ==> chain[i].0@ != chain[j].0@
}

/// The bucket a key belongs to in an array of `n` buckets.
pub open spec fn bucket_index_of<K: HashKey>(k: K::V, n: nat) -> nat {
    (K::hash_spec(k) as nat) % n
}

/// The sum of the chain lengths of `bs`.
pub open spec fn total_entries<K: HashKey, V>(bs: Seq<Vec<(K, V)>>) -> nat
    decreases bs.len(),
{
    if bs.len() == 0 {
        0
    } else {
        total_entries(bs.drop_last()) + bs.last()@.len()
    }
}

/// Structural soundness of a bucket array: every chain is free of duplicate
/// keys, and every entry sits in the bucket its hash selects.
pub open spec fn buckets_wf<K: HashKey, V>(bs: Seq<Vec<(K, V)>>) -> bool {
    &&& forall|i: int| 0 <= i < bs.len() ==> chain_distinct(#[trigger] bs[i]@)
    &&& forall|i: int, j: int|
        0 <= i < bs.len() && 0 <= j < bs[i]@.len() ==> bucket_index_of::<K>(
            (#[trigger] bs[i]@[j]).0@,
            bs.len() as nat,
        ) == i
}

/// What the table holds for key view `k`: scan the chain of the bucket the
/// hash selects. An empty bucket array holds nothing.
pub open spec fn buckets_get<K: HashKey, V>(bs: Seq<Vec<(K, V)>>, k: K::V) -> Option<V> {
    if bs.len() == 0 {
        None
    } else {
        chain_get(bs[bucket_index_of::<K>(k, bs.len() as nat) as int]@, k)
    }
}

/// The bucket count a grow step moves to: one bucket from none, otherwise
/// double the current count.
pub open spec fn grow_target(n: nat) -> nat {
    if n == 0 {
        1nat
    } else {
        2 * n
    }
}

proof fn lemma_chain_distinct_skip<K: HashKey, V>(c: Seq<(K, V)>)
    requires
        chain_distinct(c),
        c.len() > 0,
    ensures
        chain_distinct(c.skip(1)),
{
    assert forall|i: int, j: int| 0 <= i < j < c.skip(1).len() implies c.skip(1)[i].0@ != c.skip(
        1,
    )[j].0@ by {
        assert(c.skip(1)[i] == c[i + 1]);
        assert(c.skip(1)[j] == c[j + 1]);
    }
}

/// The scan finds a value exactly when some entry carries the key.
proof fn lemma_chain_get_has_key<K: HashKey, V>(c: Seq<(K, V)>, k: K::V)
    ensures
        (chain_get(c, k) is Some) == chain_has_key(c, k),
    decreases c.len(),
{
    if c.len() == 0 {
    } else if c[0].0@ == k {
    } else {
        lemma_chain_get_has_key(c.skip(1), k);
        if chain_has_key(c, k) {
            let i = choose|i: int| 0 <= i < c.len() && c[i].0@ == k;
            assert(c.skip(1)[i - 1] == c[i]);
            assert(chain_has_key(c.skip(1), k));
        }
        if chain_has_key(c.skip(1), k) {
            let i = choose|i: int| 0 <= i < c.skip(1).len() && c.skip(1)[i].0@ == k;
            assert(c.skip(1)[i] == c[i + 1]);
            assert(chain_has_key(c, k));
        }
    }
}

/// In a duplicate-free chain, the scan finds the entry at any position
/// whose key matches.
proof fn lemma_chain_get_at<K: HashKey, V>(c: Seq<(K, V)>, k: K::V, j: int)
    requires
        chain_distinct(c),
        0 <= j < c.len(),
        c[j].0@ == k,
    ensures
        chain_get(c, k) == Some(c[j].1),
    decreases c.len(),
{
    if j == 0 {
    } else {
        assert(c[0].0@ != k);
        lemma_chain_distinct_skip(c);
        assert(c.skip(1)[j - 1] == c[j]);
        lemma_chain_get_at(c.skip(1), k, j - 1);
    }
}

/// Overwriting position `j` with an entry of the same key changes what the
/// scan finds for that key alone.
proof fn lemma_chain_get_update<K: HashKey, V>(c: Seq<(K, V)>, j: int, e: (K, V), k2: K::V)
    requires
        chain_distinct(c),
        0 <= j < c.len(),
        e.0@ == c[j].0@,
    ensures
        chain_get(c.update(j, e), k2) == (if k2 == c[j].0@ {
            Some(e.1)
        } else {
            chain_get(c, k2)
        }),
    decreases c.len(),
{
    let c2 = c.update(j, e);
    if j == 0 {
        assert(c2[0] == e);
        if k2 != c[0].0@ {
            assert(c2.skip(1) =~= c.skip(1));
        }
    } else {
        assert(c2[0] == c[0]);
        assert(c2.skip(1) =~= c.skip(1).update(j - 1, e));
        lemma_chain_distinct_skip(c);
        assert(c.skip(1)[j - 1] == c[j]);
        lemma_chain_get_update(c.skip(1), j - 1, e, k2);
        if k2 == c[j].0@ {
            assert(c[0].0@ != k2);
        }
    }
}

/// Appending an entry changes what the scan finds only for the appended
/// key, and only if the chain did not hold it already.
proof fn lemma_chain_get_push<K: HashKey, V>(c: Seq<(K, V)>, e: (K, V), k2: K::V)
    ensures
        chain_get(c.push(e), k2) == (if chain_get(c, k2) is Some {
            chain_get(c, k2)
        } else if e.0@ == k2 {
            Some(e.1)
        } else {
            None::<V>
        }),
    decreases c.len(),
{
    if c.len() == 0 {
        assert(c.push(e)[0] == e);
        if e.0@ != k2 {
            assert(c.push(e).skip(1) =~= Seq::<(K, V)>::empty());
            assert(chain_get(c.push(e), k2) == chain_get(Seq::<(K, V)>::empty(), k2));
            assert(chain_get(Seq::<(K, V)>::empty(), k2) == None::<V>);
        }
    } else {
        assert(c.push(e)[0] == c[0]);
        assert(c.push(e).len() == c.len() + 1);
        if c[0].0@ != k2 {
            assert(c.push(e).skip(1) =~= c.skip(1).push(e));
            lemma_chain_get_push(c.skip(1), e, k2);
            assert(chain_get(c.push(e), k2) == chain_get(c.skip(1).push(e), k2));
            assert(chain_get(c, k2) == chain_get(c.skip(1), k2));
        }
    }
}

/// Replacing one bucket changes the entry total by the difference of the
/// two chain lengths.
proof fn lemma_total_entries_update<K: HashKey, V>(bs: Seq<Vec<(K, V)>>, i: int, c: Vec<(K, V)>)
    requires
        0 <= i < bs.len(),
    ensures
        total_entries(bs.update(i, c)) + bs[i]@.len() == total_entries(bs) + c@.len(),
    decreases bs.len(),
{
    let bs2 = bs.update(i, c);
    if i == bs.len() - 1 {
        assert(bs2.drop_last() =~= bs.drop_last());
        assert(bs2.last() == c);
    } else {
        assert(bs2.drop_last() =~= bs.drop_last().update(i, c));
        assert(bs2.last() == bs.last());
        lemma_total_entries_update(bs.drop_last(), i, c);
    }
}

/// The entry total of a prefix grows by one chain length per bucket.
proof fn lemma_total_entries_take_step<K: HashKey, V>(bs: Seq<Vec<(K, V)>>, j: int)
    requires
        0 <= j < bs.len(),
    ensures
        total_entries(bs.take(j + 1)) == total_entries(bs.take(j)) + bs[j]@.len(),
{
    assert(bs.take(j + 1).drop_last() =~= bs.take(j));
    assert(bs.take(j + 1).last() == bs[j]);
}

/// A bucket array of empty chains holds no entries.
proof fn lemma_total_entries_empty<K: HashKey, V>(bs: Seq<Vec<(K, V)>>)
    requires
        forall|i: int| 0 <= i < bs.len() ==> (#[trigger] bs[i])@.len() == 0,
    ensures
        total_entries(bs) == 0,
    decreases bs.len(),
{
    if bs.len() > 0 {
        lemma_total_entries_empty(bs.drop_last());
    }
}

/// Scan a chain from the front for an entry whose key has the given view,
/// returning the first matching position.
fn find_key_index<K: HashKey, V>(chain: &Vec<(K, V)>, key: &K) -> (r: Option<usize>)
    ensures
        match r {
            Some(j) => j < chain@.len() && chain@[j as int].0@ == key@ && (forall|i: int|
                0 <= i < j ==> chain@[i].0@ != key@),
            None => forall|i: int| 0 <= i < chain@.len() ==> chain@[i].0@ != key@,
        },
{
    let mut j: usize = 0;
    while j < chain.len()
        invariant
            j <= chain@.len(),
            forall|i: int| 0 <= i < j ==> chain@[i].0@ != key@,
        decreases chain@.len() - j,
    {
        if chain[j].0.key_eq(key) {
            return Some(j);
        }
        j = j + 1;
    }
    None
}

/// An open-hashing associative container with separate chaining.
pub struct HashMap<K: HashKey, V> {
    buckets: Vec<Vec<(K, V)>>,
    items: usize,
}

impl<K: HashKey, V> HashMap<K, V> {
    /// The abstract value of the table: the map each key view reaches by a
    /// scan of its bucket.
    pub closed spec fn as_map(self) -> Map<K::V, V> {
        Map::new(
            |k: K::V| buckets_get(self.buckets@, k) is Some,
            |k: K::V| buckets_get(self.buckets@, k).unwrap(),
        )
    }

    /// The number of items the table counts itself as holding.
    pub closed spec fn spec_len(self) -> nat {
        self.items as nat
    }

    /// The number of buckets.
    pub closed spec fn spec_bucket_count(self) -> nat {
        self.buckets@.len()
    }

    /// The table's invariant: the bucket array is structurally sound, the
    /// item count equals both the sum of chain lengths and the number of
    /// distinct keys held, the bucket count is zero or a power of two, and
    /// the load stays within one item of three quarters.
    pub closed spec fn well_formed(self) -> bool {
        &&& buckets_wf(self.buckets@)
        &&& self.items == total_entries(self.buckets@)
        &&& self.as_map().dom().finite()
        &&& self.items == self.as_map().dom().len()
        &&& (self.buckets@.len() == 0 || exists|e: nat|
            self.buckets@.len() == vstd::arithmetic::power2::pow2(e))
        &&& self.items <= 3 * self.buckets@.len() / 4 + 1
    }

    /// Build an empty table: no buckets, no items.
    pub fn new() -> (m: Self)
        ensures
            m.well_formed(),
            m@ == Map::<K::V, V>::empty(),
            m.spec_len() == 0,
            m.spec_bucket_count() == 0,
    {
        let m = HashMap { buckets: Vec::new(), items: 0 };
        proof {
            assert(m@ =~= Map::<K::V, V>::empty());
            assert(m@.dom() =~= Set::<K::V>::empty());
        }
        m
    }

    /// How many items the table holds.
    pub fn len(&self) -> (n: usize)
        ensures
            n == self.spec_len(),
    {
        self.items
    }

    /// How many buckets the table currently has.
    pub fn bucket_count(&self) -> (n: usize)
        ensures
            n == self.spec_bucket_count(),
    {
        self.buckets.len()
    }

    /// Insert a key-value pair. If the bucket array is empty or more than
    /// three quarters loaded, grow first; then place the entry in the bucket
    /// its hash selects. A key already present keeps its chain position and
    /// has its value replaced, and the previous value comes back; a fresh
    /// key is appended to its chain and the item count goes up by one.
    pub fn insert(&mut self, key: K, value: V) -> (prev: Option<V>)
        requires
            old(self).well_formed(),
            old(self).spec_bucket_count() <= usize::MAX / 4,
        ensures
            final(self).well_formed(),
            final(self)@ == old(self)@.insert(key@, value),
            prev == (if old(self)@.contains_key(key@) {
                Some(old(self)@[key@])
            } else {
                None::<V>
            }),
            final(self).spec_len() == old(self).spec_len() + (if old(self)@.contains_key(key@) {
                0int
            } else {
                1int
            }),
            final(self).spec_bucket_count() == (if old(self).spec_bucket_count() == 0 || old(
                self,
            ).spec_len() > 3 * old(self).spec_bucket_count() / 4 {
                grow_target(old(self).spec_bucket_count())
            } else {
                old(self).spec_bucket_count()
            }),
            final(self).spec_len() <= 3 * final(self).spec_bucket_count() / 4 + 1,
    {
        let grow = self.buckets.len() == 0 || self.items > 3 * self.buckets.len() / 4;
        if grow {
            self.resize();
        }
        let ghost mid = *self;
        proof {
            // after any grow there is room for one more item within the bound
            if grow {
                if old(self).spec_bucket_count() == 0 {
                    assert(old(self).spec_len() == 0);
                    assert(mid.spec_len() == 0);
                } else {
                    assert(mid.spec_bucket_count() == 2 * old(self).spec_bucket_count());
                }
            }
            assert(mid.spec_len() <= 3 * mid.spec_bucket_count() / 4);
        }
        let h = key.hash_code();
        let n = self.buckets.len();
        let idx = (h % (n as u64)) as usize;
        proof {
            assert(n > 0);
            assert(idx as nat == bucket_index_of::<K>(key@, n as nat));
        }
        let mut chain: Vec<(K, V)> = Vec::new();
        self.buckets.set_and_swap(idx, &mut chain);
        let ghost c0 = chain@;
        proof {
            assert(c0 == mid.buckets@[idx as int]@);
            assert(chain_distinct(c0));
        }
        let found = find_key_index(&chain, &key);
        let mut prev: Option<V> = None;
        let ghost replaced: bool;
        match found {
            Some(j) => {
                proof {
                    lemma_chain_get_at(c0, key@, j as int);
                    assert(buckets_get(mid.buckets@, key@) == Some(c0[j as int].1));
                    assert(mid.as_map().dom().contains(key@));
                    assert(mid.as_map()[key@] == c0[j as int].1);
                    replaced = true;
                }
                let mut e = (key, value);
                chain.set_and_swap(j, &mut e);
                let (_, old_value) = e;
                prev = Some(old_value);
                proof {
                    assert(chain@ == c0.update(j as int, (key, value)));
                    assert forall|k2: K::V| #[trigger] chain_get(chain@, k2) == (if k2 == key@ {
                        Some(value)
                    } else {
                        chain_get(c0, k2)
                    }) by {
                        lemma_chain_get_update(c0, j as int, (key, value), k2);
                    }
                    // key views are untouched, so soundness of the chain survives
                    assert forall|i1: int, j1: int| 0 <= i1 < j1 < chain@.len() implies chain@[
                        i1
                    ].0@ != chain@[j1].0@ by {
                        assert(chain@[i1].0@ == c0[i1].0@);
                        assert(chain@[j1].0@ == c0[j1].0@);
                    }
                    assert forall|j1: int| 0 <= j1 < chain@.len() implies bucket_index_of::<K>(
                        (chain@[j1]).0@,
                        n as nat,
                    ) == idx as int by {
                        assert(chain@[j1].0@ == c0[j1].0@);
                    }
                }
            },
            None => {
                proof {
                    lemma_chain_get_has_key(c0, key@);
                    assert(!chain_has_key(c0, key@));
                    assert(buckets_get(mid.buckets@, key@) == None::<V>);
                    assert(!mid.as_map().dom().contains(key@));
                    replaced = false;
                }
                chain.push((key, value));
                self.items = self.items + 1;
                proof {
                    assert(chain@ == c0.push((key, value)));
                    assert forall|k2: K::V| #[trigger] chain_get(chain@, k2) == (if k2 == key@ {
                        Some(value)
                    } else {
                        chain_get(c0, k2)
                    }) by {
                        lemma_chain_get_push(c0, (key, value), k2);
                        if k2 == key@ {
                            assert(chain_get(c0, k2) == None::<V>);
                        }
                    }
                    assert forall|i1: int, j1: int| 0 <= i1 < j1 < chain@.len() implies chain@[
                        i1
                    ].0@ != chain@[j1].0@ by {
                        if j1 == chain@.len() - 1 {
                            assert(chain@[i1] == c0[i1]);
                        }
                    }
                    assert forall|j1: int| 0 <= j1 < chain@.len() implies bucket_index_of::<K>(
                        (chain@[j1]).0@,
                        n as nat,
                    ) == idx as int by {
                        if j1 < chain@.len() - 1 {
                            assert(chain@[j1] == c0[j1]);
                        }
                    }
                }
            },
        }
        self.buckets.set_and_swap(idx, &mut chain);
        proof {
            assert(self.buckets@ =~= mid.buckets@.update(idx as int, self.buckets@[idx as int]));
            let bs2 = self.buckets@;
            let c1 = bs2[idx as int]@;
            assert forall|k2: K::V| #[trigger] buckets_get(bs2, k2) == (if k2 == key@ {
                Some(value)
            } else {
                buckets_get(mid.buckets@, k2)
            }) by {
                let nb = bucket_index_of::<K>(k2, n as nat) as int;
                if nb == idx as int {
                    assert(chain_get(c1, k2) == (if k2 == key@ {
                        Some(value)
                    } else {
                        chain_get(c0, k2)
                    }));
                } else {
                    assert(bs2[nb] == mid.buckets@[nb]);
                    assert(k2 != key@);
                }
            }
            assert(self.as_map() =~= mid.as_map().insert(key@, value));
            lemma_total_entries_update(mid.buckets@, idx as int, self.buckets@[idx as int]);
            if replaced {
                assert(self.as_map().dom() =~= mid.as_map().dom());
            } else {
                assert(self.as_map().dom() =~= mid.as_map().dom().insert(key@));
            }
            assert(old(self)@.contains_key(key@) == replaced);
        }
        prev
    }

    /// Grow the bucket array: to one bucket from none, otherwise to double
    /// the count, and rehash every stored entry into the bucket its hash
    /// selects in the new array. A pure reshuffle: every key still reaches
    /// its value, and the item count is unchanged.
    pub fn resize(&mut self)
        requires
            old(self).well_formed(),
            old(self).spec_bucket_count() <= usize::MAX / 2,
        ensures
            final(self).well_formed(),
            final(self)@ == old(self)@,
            final(self).spec_len() == old(self).spec_len(),
            final(self).spec_bucket_count() == grow_target(old(self).spec_bucket_count()),
    {
        let n_old = self.buckets.len();
        let target: usize = if n_old == 0 {
            1
        } else {
            2 * n_old
        };
        let ghost old_bs = self.buckets@;

        let mut new_buckets: Vec<Vec<(K, V)>> = Vec::new();
        let mut t: usize = 0;
        while t < target
            invariant
                t <= target,
                new_buckets@.len() == t as int,
                forall|b: int| 0 <= b < t ==> (#[trigger] new_buckets@[b])@.len() == 0,
            decreases target - t,
        {
            new_buckets.push(Vec::new());
            t = t + 1;
        }
        proof {
            lemma_total_entries_empty(new_buckets@);
        }

        let mut i: usize = 0;
        while i < self.buckets.len()
            invariant
                old(self).well_formed(),
                old_bs == old(self).buckets@,
                n_old == old_bs.len(),
                target as nat == grow_target(n_old as nat),
                i <= n_old,
                self.items == old(self).items,
                self.buckets@.len() == n_old,
                forall|b: int| 0 <= b < i ==> (#[trigger] self.buckets@[b])@.len() == 0,
                forall|b: int| i <= b < n_old ==> #[trigger] self.buckets@[b] == old_bs[b],
                new_buckets@.len() == target as int,
                forall|b: int|
                    0 <= b < new_buckets@.len() ==> chain_distinct(#[trigger] new_buckets@[b]@),
                forall|b: int, j: int|
                    0 <= b < new_buckets@.len() && 0 <= j < new_buckets@[b]@.len()
                        ==> bucket_index_of::<K>(
                        (#[trigger] new_buckets@[b]@[j]).0@,
                        new_buckets@.len() as nat,
                    ) == b,
                forall|k: K::V|
                    n_old > 0 && bucket_index_of::<K>(k, n_old as nat) < i
                        ==> #[trigger] buckets_get(new_buckets@, k) == buckets_get(old_bs, k),
                forall|k: K::V|
                    (n_old == 0 || bucket_index_of::<K>(k, n_old as nat) >= i)
                        ==> #[trigger] buckets_get(new_buckets@, k) == None::<V>,
                total_entries(new_buckets@) == total_entries(old_bs.take(i as int)),
            decreases n_old - i,
        {
            let mut chain: Vec<(K, V)> = Vec::new();
            self.buckets.set_and_swap(i, &mut chain);
            let ghost full_chain = chain@;
            proof {
                assert(full_chain == old_bs[i as int]@);
                assert(chain_distinct(full_chain));
                assert(full_chain.skip(0) =~= full_chain);
                assert(full_chain.take(0) =~= Seq::<(K, V)>::empty());
                assert(total_entries(new_buckets@) == total_entries(old_bs.take(i as int)) + (
                full_chain.len() - chain@.len()));
            }
            while chain.len() > 0
                invariant
                    old(self).well_formed(),
                    old_bs == old(self).buckets@,
                    n_old == old_bs.len(),
                    target as nat == grow_target(n_old as nat),
                    0 <= i < n_old,
                    full_chain == old_bs[i as int]@,
                    chain@.len() <= full_chain.len(),
                    chain@ == full_chain.skip(full_chain.len() - chain@.len()),
                    new_buckets@.len() == target as int,
                    forall|b: int|
                        0 <= b < new_buckets@.len() ==> chain_distinct(
                            #[trigger] new_buckets@[b]@,
                        ),
                    forall|b: int, j: int|
                        0 <= b < new_buckets@.len() && 0 <= j < new_buckets@[b]@.len()
                            ==> bucket_index_of::<K>(
                            (#[trigger] new_buckets@[b]@[j]).0@,
                            new_buckets@.len() as nat,
                        ) == b,
                    forall|k: K::V|
                        bucket_index_of::<K>(k, n_old as nat) < i
                            ==> #[trigger] buckets_get(new_buckets@, k) == buckets_get(old_bs, k),
                    forall|k: K::V|
                        bucket_index_of::<K>(k, n_old as nat) == i
                            ==> #[trigger] buckets_get(new_buckets@, k) == chain_get(
                            full_chain.take(full_chain.len() - chain@.len()),
                            k,
                        ),
                    forall|k: K::V|
                        bucket_index_of::<K>(k, n_old as nat) > i
                            ==> #[trigger] buckets_get(new_buckets@, k) == None::<V>,
                    total_entries(new_buckets@) == total_entries(old_bs.take(i as int)) + (
                    full_chain.len() - chain@.len()),
                decreases chain@.len(),
            {
                let ghost pre_chain = chain@;
                let ghost pre_new = new_buckets@;
                let ghost moved = full_chain.len() - pre_chain.len();
                let entry = chain.remove(0);
                let h = entry.0.hash_code();
                let b = (h % (new_buckets.len() as u64)) as usize;
                proof {
                    assert(entry == full_chain[moved as int]);
                    assert(chain@ =~= full_chain.skip(moved as int + 1));
                    assert(bucket_index_of::<K>(entry.0@, n_old as nat) == i);
                    assert(b as nat == bucket_index_of::<K>(entry.0@, target as nat));
                    // the moved key is not among the entries already placed
                    assert forall|idx: int| 0 <= idx < moved implies full_chain.take(
                        moved as int,
                    )[idx].0@ != entry.0@ by {
                        assert(full_chain.take(moved as int)[idx] == full_chain[idx]);
                    }
                    lemma_chain_get_has_key(full_chain.take(moved as int), entry.0@);
                    assert(buckets_get(pre_new, entry.0@) == None::<V>);
                    lemma_chain_get_has_key(pre_new[b as int]@, entry.0@);
                    assert(!chain_has_key(pre_new[b as int]@, entry.0@));
                }
                let mut tmp: Vec<(K, V)> = Vec::new();
                new_buckets.set_and_swap(b, &mut tmp);
                tmp.push(entry);
                new_buckets.set_and_swap(b, &mut tmp);
                proof {
                    let pushed = pre_new[b as int]@.push(entry);
                    assert(new_buckets@ =~= pre_new.update(b as int, new_buckets@[b as int]));
                    assert(new_buckets@[b as int]@ == pushed);
                    // distinctness of the extended chain
                    assert forall|i1: int, j1: int| 0 <= i1 < j1 < pushed.len() implies pushed[
                        i1
                    ].0@ != pushed[j1].0@ by {
                        if j1 == pushed.len() - 1 {
                            assert(pushed[i1] == pre_new[b as int]@[i1]);
                            if pushed[i1].0@ == entry.0@ {
                                assert(chain_has_key(pre_new[b as int]@, entry.0@));
                            }
                        }
                    }
                    // placement of the extended chain
                    assert forall|j1: int| 0 <= j1 < pushed.len() implies bucket_index_of::<K>(
                        pushed[j1].0@,
                        target as nat,
                    ) == b as int by {
                        if j1 < pushed.len() - 1 {
                            assert(pushed[j1] == pre_new[b as int]@[j1]);
                        }
                    }
                    // how the move shifts what each key reaches
                    let prefix = full_chain.take(moved as int);
                    let prefix1 = full_chain.take(moved as int + 1);
                    assert(prefix1 =~= prefix.push(entry));
                    assert forall|k2: K::V| #[trigger] buckets_get(new_buckets@, k2) == (if k2
                        == entry.0@ {
                        Some(entry.1)
                    } else {
                        buckets_get(pre_new, k2)
                    }) by {
                        let nb = bucket_index_of::<K>(k2, target as nat) as int;
                        if nb == b as int {
                            lemma_chain_get_push(pre_new[b as int]@, entry, k2);
                            if k2 == entry.0@ {
                                assert(chain_get(pre_new[b as int]@, k2) == None::<V>);
                            }
                        } else {
                            assert(new_buckets@[nb] == pre_new[nb]);
                            assert(k2 != entry.0@);
                        }
                    }
                    assert forall|k2: K::V|
                        bucket_index_of::<K>(k2, n_old as nat) == i implies #[trigger] buckets_get(
                        new_buckets@,
                        k2,
                    ) == chain_get(prefix1, k2) by {
                        lemma_chain_get_push(prefix, entry, k2);
                        if k2 == entry.0@ {
                            assert(chain_get(prefix, k2) == None::<V>);
                        } else {
                            assert(buckets_get(new_buckets@, k2) == buckets_get(pre_new, k2));
                        }
                    }
                    assert forall|k2: K::V|
                        bucket_index_of::<K>(k2, n_old as nat) != i implies #[trigger] buckets_get(
                        new_buckets@,
                        k2,
                    ) == buckets_get(pre_new, k2) by {
                        assert(k2 != entry.0@);
                    }
                    lemma_total_entries_update(pre_new, b as int, new_buckets@[b as int]);
                }
            }
            i = i + 1;
            proof {
                assert(full_chain.take(full_chain.len() as int) =~= full_chain);
                lemma_total_entries_take_step(old_bs, i as int - 1);
                assert forall|k: K::V|
                    n_old > 0 && bucket_index_of::<K>(k, n_old as nat) < i implies #[trigger] buckets_get(
                    new_buckets@,
                    k,
                ) == buckets_get(old_bs, k) by {
                    if bucket_index_of::<K>(k, n_old as nat) == i - 1 {
                        assert(buckets_get(old_bs, k) == chain_get(full_chain, k));
                    }
                }
            }
        }
        core::mem::swap(&mut self.buckets, &mut new_buckets);
        proof {
            assert(old_bs.take(n_old as int) =~= old_bs);
            assert forall|k: K::V| #[trigger] buckets_get(self.buckets@, k) == buckets_get(
                old_bs,
                k,
            ) by {
                if n_old > 0 {
                    assert(bucket_index_of::<K>(k, n_old as nat) < n_old);
                }
            }
            assert(self.as_map() =~= old(self).as_map());
            assert(self.as_map().dom() =~= old(self).as_map().dom());
            // the new count is zero-or-a-power-of-two again
            if n_old == 0 {
                vstd::arithmetic::power2::lemma2_to64();
                assert(self.buckets@.len() == vstd::arithmetic::power2::pow2(0));
            } else {
                let e = choose|e: nat|
                    old_bs.len() == #[trigger] vstd::arithmetic::power2::pow2(e);
                vstd::arithmetic::power2::lemma_pow2_unfold(e + 1);
                assert(self.buckets@.len() == vstd::arithmetic::power2::pow2(e + 1));
            }
            // the load bound survives: the divisor grew
            vstd::arithmetic::div_mod::lemma_div_is_ordered(
                3 * n_old as int,
                3 * self.buckets@.len() as int,
                4,
            );
        }
    }

    /// A well-formed table counts exactly the keys its map holds: the item
    /// count is the size of the view's domain.
    pub proof fn lemma_len_is_key_count(self)
        requires
            self.well_formed(),
        ensures
            self@.dom().finite(),
            self.spec_len() == self@.dom().len(),
    {
    }
}

impl<K: HashKey, V> View for HashMap<K, V> {
    type V = Map<<K as View>::V, V>;

    open spec fn view(&self) -> Map<<K as View>::V, V> {
        self.as_map()
    }
}

} // verus!
