//! The sum of the values of a finite map, and the facts about it that the
//! counter's arithmetic rests on.
use std::collections::HashMap;
use std::hash::Hash;
use vstd::prelude::*;
use vstd::std_specs::hash::obeys_key_model;

verus! {

/// The sum of all values of `m`. Zero for the empty map.
pub open spec fn total<K>(m: Map<K, i64>) -> int
    decreases m.dom().len(),
    when m.dom().finite()
{
    if m.dom().len() == 0 {
        0
    } else {
        let k = m.dom().choose();
        m[k] + total(m.remove(k))
    }
}

/// Every value of `m` is at least zero.
pub open spec fn non_negative<K>(m: Map<K, i64>) -> bool {
    forall|k: K| #[trigger] m.contains_key(k) ==> m[k] >= 0
}

/// The empty map sums to zero.
pub proof fn lemma_total_empty<K>()
    ensures
        total(Map::<K, i64>::empty()) == 0,
{
    assert(Map::<K, i64>::empty().dom() =~= Set::<K>::empty());
}

/// Any key can be split off the sum, not only the chosen one.
pub proof fn lemma_total_remove<K>(m: Map<K, i64>, k: K)
    requires
        m.dom().finite(),
        m.contains_key(k),
    ensures
        total(m) == m[k] + total(m.remove(k)),
    decreases m.dom().len(),
{
    let c = m.dom().choose();
    if c != k {
        lemma_total_remove(m.remove(c), k);
        lemma_total_remove(m.remove(k), c);
        assert(m.remove(c).remove(k) =~= m.remove(k).remove(c));
    }
}

/// Writing `v` at `k` replaces what `k` contributed before, if anything.
pub proof fn lemma_total_insert<K>(m: Map<K, i64>, k: K, v: i64)
    requires
        m.dom().finite(),
    ensures
        total(m.insert(k, v)) == total(m) + v - (if m.contains_key(k) {
            m[k] as int
        } else {
            0
        }),
{
    let n = m.insert(k, v);
    lemma_total_remove(n, k);
    assert(n.remove(k) =~= m.remove(k));
    if m.contains_key(k) {
        lemma_total_remove(m, k);
    } else {
        assert(m.remove(k) =~= m);
    }
}

/// A map of one entry sums to that entry's value.
pub proof fn lemma_total_single<K>(k: K, v: i64)
    ensures
        total(Map::<K, i64>::empty().insert(k, v)) == v,
{
    lemma_total_empty::<K>();
    lemma_total_insert(Map::<K, i64>::empty(), k, v);
}

/// A map without negative values has a sum of at least zero.
pub proof fn lemma_total_non_negative<K>(m: Map<K, i64>)
    requires
        m.dom().finite(),
        non_negative(m),
    ensures
        total(m) >= 0,
    decreases m.dom().len(),
{
    if m.dom().len() != 0 {
        let k = m.dom().choose();
        lemma_total_non_negative(m.remove(k));
    }
}

/// Where `a` holds no more keys than `b`, and at each of its keys no more
/// than `b` does, and `b` has no negative value, `a` sums to no more than `b`.
pub proof fn lemma_total_le<K>(a: Map<K, i64>, b: Map<K, i64>)
    requires
        a.dom().finite(),
        b.dom().finite(),
        non_negative(b),
        forall|k: K| #[trigger] a.contains_key(k) ==> b.contains_key(k) && a[k] <= b[k],
    ensures
        total(a) <= total(b),
    decreases a.dom().len(),
{
    if a.dom().len() == 0 {
        lemma_total_non_negative(b);
    } else {
        let k = a.dom().choose();
        assert(a.contains_key(k));
        lemma_total_remove(b, k);
        lemma_total_le(a.remove(k), b.remove(k));
    }
}

/// In a map without negative values no single value exceeds the sum.
pub proof fn lemma_total_bounds_each<K>(m: Map<K, i64>, k: K)
    requires
        m.dom().finite(),
        non_negative(m),
        m.contains_key(k),
    ensures
        m[k] <= total(m),
{
    lemma_total_remove(m, k);
    lemma_total_non_negative(m.remove(k));
}

/// A finite map stays finite when restricted to a set of keys.
pub proof fn lemma_restrict_finite<K, V>(m: Map<K, V>, keys: Set<K>)
    requires
        m.dom().finite(),
    ensures
        m.restrict(keys).dom().finite(),
{
    vstd::set_lib::lemma_len_subset(m.restrict(keys).dom(), m.dom());
}

/// The keys among the first `n` entries of `list`.
pub open spec fn keys_before<'a, K>(list: Seq<(&'a K, &'a i64)>, n: int) -> Set<K> {
    Set::new(|k: K| exists|j: int| 0 <= j < n && *(#[trigger] list[j]).0 == k)
}

/// Adds up the values of `m`.
pub fn sum_values<K: Copy + Eq + Hash>(m: &HashMap<K, i64>) -> (r: i64)
    requires
        obeys_key_model::<K>(),
        non_negative(m@),
        total(m@) <= i64::MAX,
    ensures
        r == total(m@),
{
    let mut r: i64 = 0;
    proof {
        lemma_total_empty::<K>();
        assert forall|list: Seq<(&K, &i64)>|
            (#[trigger] m@.restrict(keys_before(list, 0))) == Map::<K, i64>::empty() by {
            assert(m@.restrict(keys_before(list, 0)) =~= Map::<K, i64>::empty());
        }
    }
    for entry in it: m.iter()
        invariant
            non_negative(m@),
            total(m@) <= i64::MAX,
            it.seq().no_duplicates(),
            it.seq().len() == m@.dom().len(),
            forall|j: int|
                0 <= j < it.seq().len() ==> m@.contains_key(*(#[trigger] it.seq()[j]).0)
                    && m@[*it.seq()[j].0] == *it.seq()[j].1,
            forall|k: K| #[trigger] m@.contains_key(k) ==> it.seq().contains((&k, &m@[k])),
            r == total(m@.restrict(keys_before(it.seq(), it.index()))),
            it.index() == it.seq().len() ==> m@.restrict(keys_before(it.seq(), it.index()))
                == m@,
    {
        proof {
            let i = it.index();
            let list = it.seq();
            let k = *list[i].0;
            let before = m@.restrict(keys_before(list, i));
            let after = m@.restrict(keys_before(list, i + 1));
            assert(!before.contains_key(k)) by {
                if before.contains_key(k) {
                    let j = choose|j: int| 0 <= j < i && *(#[trigger] list[j]).0 == k;
                    assert(list[j] == list[i]);
                }
            }
            assert(after =~= before.insert(k, *list[i].1));
            lemma_restrict_finite(m@, keys_before(list, i));
            lemma_restrict_finite(m@, keys_before(list, i + 1));
            lemma_total_insert(before, k, *list[i].1);
            lemma_total_le(after, m@);
            assert forall|k: K| i + 1 == list.len() && m@.contains_key(k) implies #[trigger]
                after.contains_key(k) by {
                let j = list.index_of((&k, &m@[k]));
                assert(*list[j].0 == k);
            }
            assert(i + 1 == list.len() ==> after =~= m@);
        }
        r = r + *entry.1;
    }
    r
}

} // verus!
