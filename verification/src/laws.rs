//! General properties of the table, stated once for all inputs and proved.
//!
//! The table's operations describe themselves through the map view: `insert`
//! turns the view `m` into `m.insert(k, v)`, `resize` leaves it unchanged,
//! and a well-formed table's item count is the size of the view's domain
//! (`HashMap::lemma_len_is_key_count`). The laws here follow the view.

use crate::table::grow_target;
use vstd::arithmetic::power2::lemma2_to64;
use vstd::arithmetic::power2::lemma_pow2_pos;
use vstd::arithmetic::power2::lemma_pow2_unfold;
use vstd::arithmetic::power2::pow2;
use vstd::prelude::*;

verus! {

/// Idempotent replacement: inserting one key twice, with values `v1` then
/// `v2`, leaves the map exactly as a single insertion of `v2` would — one
/// entry for that key, holding `v2`. The key is present after the first
/// insertion, so only the first of the two raises the key count.
pub proof fn lemma_idempotent_replacement<K, V>(m: Map<K, V>, k: K, v1: V, v2: V)
    ensures
        m.insert(k, v1).insert(k, v2) == m.insert(k, v2),
        m.insert(k, v1).contains_key(k),
        m.dom().finite() && !m.contains_key(k) ==> m.insert(k, v1).insert(k, v2).dom().len()
            == m.dom().len() + 1,
{
    assert(m.insert(k, v1).insert(k, v2) =~= m.insert(k, v2));
    if m.dom().finite() && !m.contains_key(k) {
        assert(m.insert(k, v1).insert(k, v2).dom() =~= m.dom().insert(k));
    }
}

/// The map a batch of insertions builds, applied first to last.
pub open spec fn insert_all<K, V>(m: Map<K, V>, kvs: Seq<(K, V)>) -> Map<K, V>
    decreases kvs.len(),
{
    if kvs.len() == 0 {
        m
    } else {
        insert_all(m, kvs.drop_last()).insert(kvs.last().0, kvs.last().1)
    }
}

/// A batch of insertions holds a key exactly when the starting map held it
/// or some inserted pair carries it.
pub proof fn lemma_insert_all_contains<K, V>(m: Map<K, V>, kvs: Seq<(K, V)>, k: K)
    ensures
        insert_all(m, kvs).contains_key(k) == (m.contains_key(k) || exists|i: int|
            0 <= i < kvs.len() && kvs[i].0 == k),
    decreases kvs.len(),
{
    if kvs.len() > 0 {
        let pre = kvs.drop_last();
        lemma_insert_all_contains(m, pre, k);
        if insert_all(m, kvs).contains_key(k) {
            if k != kvs.last().0 {
                if !m.contains_key(k) {
                    let i = choose|i: int| 0 <= i < pre.len() && pre[i].0 == k;
                    assert(kvs[i].0 == k);
                }
            } else {
                assert(kvs[kvs.len() - 1].0 == k);
            }
        }
        if m.contains_key(k) || exists|i: int| 0 <= i < kvs.len() && kvs[i].0 == k {
            if !m.contains_key(k) && k != kvs.last().0 {
                let i = choose|i: int| 0 <= i < kvs.len() && kvs[i].0 == k;
                assert(pre[i].0 == k);
            }
        }
    }
}

/// Count invariant: a batch of insertions whose keys are pairwise distinct
/// and all fresh grows the key count by exactly the batch size. Run from
/// the empty map — a freshly constructed table — the count is the batch
/// size itself.
pub proof fn lemma_count_invariant<K, V>(m: Map<K, V>, kvs: Seq<(K, V)>)
    requires
        m.dom().finite(),
        forall|i: int, j: int| 0 <= i < j < kvs.len() ==> kvs[i].0 != kvs[j].0,
        forall|i: int| 0 <= i < kvs.len() ==> !m.contains_key((#[trigger] kvs[i]).0),
    ensures
        insert_all(m, kvs).dom().finite(),
        insert_all(m, kvs).dom().len() == m.dom().len() + kvs.len(),
    decreases kvs.len(),
{
    if kvs.len() > 0 {
        let pre = kvs.drop_last();
        let last = kvs.last();
        assert(forall|i: int| 0 <= i < pre.len() ==> pre[i] == kvs[i]);
        lemma_count_invariant(m, pre);
        lemma_insert_all_contains(m, pre, last.0);
        assert(!insert_all(m, pre).contains_key(last.0)) by {
            assert(!m.contains_key(kvs[kvs.len() - 1].0));
            if exists|i: int| 0 <= i < pre.len() && pre[i].0 == last.0 {
                let i = choose|i: int| 0 <= i < pre.len() && pre[i].0 == last.0;
                assert(kvs[i].0 == kvs[kvs.len() - 1].0);
            }
        }
        assert(insert_all(m, kvs).dom() =~= insert_all(m, pre).dom().insert(last.0));
    }
}

/// The bucket count after the g-th grow of a table built empty: no buckets
/// at the start, then each grow applies its target rule.
pub open spec fn count_after_grows(g: nat) -> nat
    decreases g,
{
    if g == 0 {
        0
    } else {
        grow_target(count_after_grows((g - 1) as nat))
    }
}

/// Growth sequence: the first grow (triggered by the first insert) makes
/// one bucket, and every later grow doubles, so the counts observed at the
/// grow events run 1, 2, 4, 8, ... — after the g-th grow there are 2^(g-1)
/// buckets.
pub proof fn lemma_growth_sequence(g: nat)
    requires
        g >= 1,
    ensures
        count_after_grows(g) == pow2((g - 1) as nat),
    decreases g,
{
    if g == 1 {
        lemma2_to64();
    } else {
        lemma_growth_sequence((g - 1) as nat);
        lemma_pow2_pos((g - 2) as nat);
        lemma_pow2_unfold((g - 1) as nat);
    }
}

} // verus!
