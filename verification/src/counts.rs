//! Counters under sorted keys.

use crate::sorted_map;
use crate::sorted_map::{OrderedKey, SortedMap};
use vstd::prelude::*;

verus! {

/// The numbers of a map.
pub open spec fn numbers<K>(m: Map<K, u64>) -> Map<K, int> {
    m.map_values(|n: u64| n as int)
}

/// The sum of the counts under the listed keys that `which` holds of.
pub open spec fn sum_where<K: OrderedKey>(
    counts: Map<K::V, int>,
    keys: Seq<K::V>,
    which: spec_fn(K::V) -> bool,
) -> int
    decreases keys.len(),
{
    if keys.len() == 0 {
        0
    } else {
        sum_where::<K>(counts, keys.drop_last(), which) + if which(keys.last()) {
            counts[keys.last()]
        } else {
            0
        }
    }
}

/// The sum of the counts under the keys that `which` holds of.
pub open spec fn counted<K: OrderedKey>(
    counts: Map<K::V, int>,
    which: spec_fn(K::V) -> bool,
) -> int {
    sum_where::<K>(counts, sorted_map::sorted::<K>(counts.dom()), which)
}

/// Holds of every key.
pub open spec fn every_key<K: OrderedKey>() -> spec_fn(K::V) -> bool {
    |k: K::V| true
}

/// The count under a key, none where it has not been seen.
pub open spec fn count_of<K>(counts: Map<K, int>, key: K) -> int {
    if counts.contains_key(key) {
        counts[key]
    } else {
        0
    }
}

/// The counts with one more under a key.
pub open spec fn one_more<K>(counts: Map<K, int>, key: K) -> Map<K, int> {
    counts.insert(key, count_of(counts, key) + 1)
}

/// Whether finitely many keys have a count, each of which has been counted at
/// least once.
pub open spec fn counts_are_sound<K>(counts: Map<K, int>) -> bool {
    &&& counts.dom().finite()
    &&& forall|k: K| #[trigger] counts.contains_key(k) ==> counts[k] >= 1
}

proof fn lemma_sum_agrees<K: OrderedKey>(
    a: Map<K::V, int>,
    b: Map<K::V, int>,
    keys: Seq<K::V>,
    which: spec_fn(K::V) -> bool,
)
    requires
        forall|i: int| 0 <= i < keys.len() ==> a[#[trigger] keys[i]] == b[keys[i]],
    ensures
        sum_where::<K>(a, keys, which) == sum_where::<K>(b, keys, which),
    decreases keys.len(),
{
    if keys.len() > 0 {
        let rest = keys.drop_last();
        assert forall|i: int| 0 <= i < rest.len() implies a[#[trigger] rest[i]] == b[rest[i]] by {
            assert(rest[i] == keys[i]);
        }
        lemma_sum_agrees::<K>(a, b, rest, which);
        assert(a[keys[keys.len() - 1]] == b[keys[keys.len() - 1]]);
    }
}

proof fn lemma_sum_remove<K: OrderedKey>(
    counts: Map<K::V, int>,
    keys: Seq<K::V>,
    at: int,
    which: spec_fn(K::V) -> bool,
)
    requires
        0 <= at < keys.len(),
    ensures
        sum_where::<K>(counts, keys, which) == sum_where::<K>(counts, keys.remove(at), which) + if which(
            keys[at],
        ) {
            counts[keys[at]]
        } else {
            0
        },
    decreases keys.len(),
{
    let rest = keys.drop_last();
    if at == keys.len() - 1 {
        assert(keys.remove(at) =~= rest);
    } else {
        lemma_sum_remove::<K>(counts, rest, at, which);
        assert(keys.remove(at).drop_last() =~= rest.remove(at));
        assert(keys.remove(at).last() == keys.last());
    }
}

proof fn lemma_sum_not_negative<K: OrderedKey>(
    counts: Map<K::V, int>,
    keys: Seq<K::V>,
    which: spec_fn(K::V) -> bool,
)
    requires
        forall|i: int| 0 <= i < keys.len() ==> counts[#[trigger] keys[i]] >= 0,
    ensures
        0 <= sum_where::<K>(counts, keys, which) <= sum_where::<K>(counts, keys, every_key::<K>()),
    decreases keys.len(),
{
    if keys.len() > 0 {
        let rest = keys.drop_last();
        assert forall|i: int| 0 <= i < rest.len() implies counts[#[trigger] rest[i]] >= 0 by {
            assert(rest[i] == keys[i]);
        }
        lemma_sum_not_negative::<K>(counts, rest, which);
        assert(counts[keys[keys.len() - 1]] >= 0);
    }
}

/// The part of a sum that a beginning of the list makes up is no more than all.
proof fn lemma_sum_of_part<K: OrderedKey>(
    counts: Map<K::V, int>,
    keys: Seq<K::V>,
    n: int,
    which: spec_fn(K::V) -> bool,
)
    requires
        0 <= n <= keys.len(),
        forall|i: int| 0 <= i < keys.len() ==> counts[#[trigger] keys[i]] >= 0,
    ensures
        0 <= sum_where::<K>(counts, keys.take(n), which) <= sum_where::<K>(counts, keys, every_key::<K>()),
    decreases keys.len() - n,
{
    if n == keys.len() {
        assert(keys.take(n) =~= keys);
        lemma_sum_not_negative::<K>(counts, keys, which);
    } else {
        lemma_sum_of_part::<K>(counts, keys, n + 1, which);
        assert(keys.take(n + 1).drop_last() =~= keys.take(n));
        assert(counts[keys[n]] >= 0);
        assert forall|i: int| 0 <= i < n implies counts[#[trigger] keys.take(n)[i]] >= 0 by {
            assert(keys.take(n)[i] == keys[i]);
        }
        lemma_sum_not_negative::<K>(counts, keys.take(n), which);
    }
}

proof fn lemma_listed_counts<K: OrderedKey>(counts: Map<K::V, int>)
    requires
        counts.dom().finite(),
        forall|k: K::V| #[trigger] counts.contains_key(k) ==> counts[k] >= 0,
    ensures
        ({
            let keys = sorted_map::sorted::<K>(counts.dom());
            &&& sorted_map::ascending::<K>(keys)
            &&& keys.to_set() == counts.dom()
            &&& forall|i: int| 0 <= i < keys.len() ==> counts[#[trigger] keys[i]] >= 0
            &&& forall|i: int| 0 <= i < keys.len() ==> counts.contains_key(#[trigger] keys[i])
        }),
{
    sorted_map::finite_set_is_listed::<K>(counts.dom());
    let keys = sorted_map::sorted::<K>(counts.dom());
    assert forall|i: int| 0 <= i < keys.len() implies counts[#[trigger] keys[i]] >= 0
        && counts.contains_key(keys[i]) by {
        assert(keys.to_set().contains(keys[i]));
    }
}

/// No part of the counts sums to more than all of them, and no single count is
/// more.
pub proof fn counts_are_parts_of_the_total<K: OrderedKey>(
    counts: Map<K::V, int>,
    which: spec_fn(K::V) -> bool,
    key: K::V,
)
    requires
        counts_are_sound(counts),
    ensures
        0 <= counted::<K>(counts, which) <= counted::<K>(counts, every_key::<K>()),
        0 <= count_of(counts, key) <= counted::<K>(counts, every_key::<K>()),
{
    lemma_listed_counts::<K>(counts);
    let keys = sorted_map::sorted::<K>(counts.dom());
    lemma_sum_not_negative::<K>(counts, keys, which);
    if counts.contains_key(key) {
        assert(keys.to_set().contains(key));
        let at = keys.index_of(key);
        lemma_sum_remove::<K>(counts, keys, at, every_key::<K>());
        let rest = keys.remove(at);
        assert forall|i: int| 0 <= i < rest.len() implies counts[#[trigger] rest[i]] >= 0 by {
            if i < at {
                assert(rest[i] == keys[i]);
            } else {
                assert(rest[i] == keys[i + 1]);
            }
        }
        lemma_sum_not_negative::<K>(counts, rest, every_key::<K>());
    }
}

/// Counting adds one to every sum that the key is part of, and nothing to the
/// others.
pub proof fn counting_adds_one<K: OrderedKey>(
    counts: Map<K::V, int>,
    key: K::V,
    which: spec_fn(K::V) -> bool,
)
    requires
        counts_are_sound(counts),
    ensures
        counts_are_sound(one_more(counts, key)),
        counted::<K>(one_more(counts, key), which) == counted::<K>(counts, which) + if which(key) {
            1int
        } else {
            0
        },
{
    let after = one_more(counts, key);
    lemma_listed_counts::<K>(counts);
    assert forall|k: K::V| #[trigger] after.contains_key(k) implies after[k] >= 1 by {
        if k != key {
            assert(counts.contains_key(k));
        }
    }
    lemma_listed_counts::<K>(after);
    let keys = sorted_map::sorted::<K>(counts.dom());
    let more = sorted_map::sorted::<K>(after.dom());
    assert(more.to_set().contains(key));
    let at = more.index_of(key);
    let rest = more.remove(at);
    lemma_sum_remove::<K>(after, more, at, which);
    assert forall|i: int| 0 <= i < rest.len() implies after[#[trigger] rest[i]] == counts[rest[i]] by {
        let j = if i < at {
            i
        } else {
            i + 1
        };
        assert(rest[i] == more[j]);
        if more[j] == key {
            sorted_map::ascending_keys_are_distinct::<K>(more, j, at);
        }
    }
    lemma_sum_agrees::<K>(after, counts, rest, which);
    if counts.contains_key(key) {
        assert(after.dom() =~= counts.dom());
        lemma_sum_remove::<K>(counts, keys, at, which);
    } else {
        assert(sorted_map::ascending::<K>(rest)) by {
            assert forall|i: int, j: int| 0 <= i < j < rest.len() implies K::before(
            #[trigger] rest[i], #[trigger] rest[j]) by {
                let p = if i < at {
                    i
                } else {
                    i + 1
                };
                let q = if j < at {
                    j
                } else {
                    j + 1
                };
                assert(K::before(more[p], more[q]));
            }
        }
        assert forall|k: K::V| rest.to_set().contains(k) <==> keys.to_set().contains(k) by {
            if rest.contains(k) {
                let i = rest.index_of(k);
                let j = if i < at {
                    i
                } else {
                    i + 1
                };
                assert(more[j] == k);
                assert(more.to_set().contains(k));
                if k == key {
                    sorted_map::ascending_keys_are_distinct::<K>(more, j, at);
                }
            }
            if keys.contains(k) {
                assert(keys.to_set().contains(k));
                assert(more.to_set().contains(k));
                let j = more.index_of(k);
                if j < at {
                    assert(rest[j] == k);
                } else {
                    assert(rest[j - 1] == k);
                }
            }
        }
        assert(rest.to_set() =~= keys.to_set());
        sorted_map::ascending_list_is_unique::<K>(rest, keys);
    }
}

/// Counts one more under a key.
pub fn count_one<K: OrderedKey>(counts: &mut SortedMap<K, u64>, key: K)
    requires
        count_of(numbers(old(counts)@), key@) < u64::MAX,
    ensures
        numbers(final(counts)@) == one_more(numbers(old(counts)@), key@),
{
    let ghost before = numbers(counts@);
    match counts.index_of(&key) {
        Some(i) => {
            let more: u64 = *counts.value_at(i) + 1;
            *counts.value_at_mut(i) = more;
        },
        None => {
            counts.insert(key, 1);
        },
    }
    assert(numbers(counts@) =~= one_more(before, key@));
}

/// The sum of all counts.
pub fn sum_of_all<K: OrderedKey>(counts: &SortedMap<K, u64>) -> (sum: u64)
    requires
        counted::<K>(numbers(counts@), every_key::<K>()) <= u64::MAX,
    ensures
        sum == counted::<K>(numbers(counts@), every_key::<K>()),
{
    let ghost all = numbers(counts@);
    let n: usize = counts.len();
    let ghost keys = counts.keys();
    proof {
        sorted_map::keys_list_the_domain::<K, u64>(*counts);
        assert(all.dom() =~= counts@.dom());
        lemma_listed_counts::<K>(all);
    }
    let mut sum: u64 = 0;
    let mut i: usize = 0;
    while i < n
        invariant
            i <= n,
            n == keys.len(),
            n == counts.values().len(),
            keys == counts.keys(),
            sorted_map::ascending::<K>(keys),
            all == numbers(counts@),
            keys == sorted_map::sorted::<K>(all.dom()),
            forall|k: int| 0 <= k < keys.len() ==> all[#[trigger] keys[k]] >= 0,
            counted::<K>(all, every_key::<K>()) <= u64::MAX,
            sum == sum_where::<K>(all, keys.take(i as int), every_key::<K>()),
        decreases n - i,
    {
        proof {
            sorted_map::value_stands_under_its_key::<K, u64>(*counts, i as int);
            assert(keys.take(i + 1).drop_last() =~= keys.take(i as int));
            lemma_sum_of_part::<K>(all, keys, i + 1, every_key::<K>());
        }
        sum = sum + *counts.value_at(i);
        i = i + 1;
    }
    assert(keys.take(n as int) =~= keys);
    sum
}

/// A count is what stands under its key, and none where nothing does. Counting
/// adds one under its key and leaves the others. Where nothing has been counted,
/// the sums are zero.
pub proof fn counts_stand_under_their_key<K: OrderedKey>(
    counts: Map<K::V, int>,
    key: K::V,
    other: K::V,
    which: spec_fn(K::V) -> bool,
)
    ensures
        counts.contains_key(key) ==> count_of(counts, key) == counts[key],
        !counts.contains_key(key) ==> count_of(counts, key) == 0,
        one_more(counts, key).contains_key(key),
        count_of(one_more(counts, key), key) == count_of(counts, key) + 1,
        other != key ==> count_of(one_more(counts, key), other) == count_of(counts, other),
        counted::<K>(Map::empty(), which) == 0,
{
    let none = Map::<K::V, int>::empty();
    sorted_map::finite_set_is_listed::<K>(none.dom());
    let keys = sorted_map::sorted::<K>(none.dom());
    if keys.len() > 0 {
        assert(keys.to_set().contains(keys[0]));
    }
}

} // verus!
