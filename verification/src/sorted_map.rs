//! A map that keeps its entries sorted by key.

use crate::text;
use crate::text::Order;
use vstd::prelude::*;

verus! {

/// A key type with a strict total order on its views.
pub trait OrderedKey: View + Sized {
    spec fn before(a: Self::V, b: Self::V) -> bool;

    proof fn before_irreflexive(a: Self::V)
        ensures
            !Self::before(a, a),
    ;

    proof fn before_transitive(a: Self::V, b: Self::V, c: Self::V)
        requires
            Self::before(a, b),
            Self::before(b, c),
        ensures
            Self::before(a, c),
    ;

    proof fn before_total(a: Self::V, b: Self::V)
        ensures
            a == b || Self::before(a, b) || Self::before(b, a),
    ;

    fn order(&self, other: &Self) -> (o: Order)
        ensures
            match o {
                Order::Less => Self::before(self@, other@),
                Order::Equal => self@ == other@,
                Order::Greater => Self::before(other@, self@),
            },
    ;
}

impl OrderedKey for String {
    open spec fn before(a: Seq<char>, b: Seq<char>) -> bool {
        text::text_before(a, b)
    }

    proof fn before_irreflexive(a: Seq<char>) {
        text::text_before_irreflexive(a);
    }

    proof fn before_transitive(a: Seq<char>, b: Seq<char>, c: Seq<char>) {
        text::text_before_transitive(a, b, c);
    }

    proof fn before_total(a: Seq<char>, b: Seq<char>) {
        text::text_before_total(a, b);
    }

    fn order(&self, other: &String) -> (o: Order) {
        text::text_order(self.as_str(), other.as_str())
    }
}

/// Whether `keys` stands in strictly ascending order.
pub open spec fn ascending<K: OrderedKey>(keys: Seq<K::V>) -> bool {
    forall|i: int, j: int|
        0 <= i < j < keys.len() ==> K::before(#[trigger] keys[i], #[trigger] keys[j])
}

/// The map that a list of distinct keys and the values beside them stand for.
pub open spec fn map_of<A, V>(keys: Seq<A>, values: Seq<V>) -> Map<A, V> {
    Map::new(|k: A| keys.contains(k), |k: A| values[keys.index_of(k)])
}

/// A map from keys to values whose keys are kept in ascending order, so that
/// a key is found by bisection and a walk over the entries is a sorted walk.
#[derive(Debug)]
pub struct SortedMap<K: OrderedKey, V> {
    keys: Vec<K>,
    values: Vec<V>,
}

/// How the list of entries changes when `value` is put under `key`: the value
/// beside the key is replaced, or a new entry stands at the key's place.
pub open spec fn entered<A, V>(
    keys: Seq<A>,
    values: Seq<V>,
    key: A,
    value: V,
    new_keys: Seq<A>,
    new_values: Seq<V>,
) -> bool {
    if keys.contains(key) {
        &&& new_keys == keys
        &&& new_values == values.update(keys.index_of(key), value)
    } else {
        &&& new_keys == keys.insert(new_keys.index_of(key), key)
        &&& new_values == values.insert(new_keys.index_of(key), value)
        &&& 0 <= new_keys.index_of(key) <= keys.len()
    }
}

/// In an ascending list of keys a key stands at one place only.
pub proof fn ascending_keys_are_distinct<K: OrderedKey>(keys: Seq<K::V>, i: int, j: int)
    requires
        ascending::<K>(keys),
        0 <= i < keys.len(),
        0 <= j < keys.len(),
        keys[i] == keys[j],
    ensures
        i == j,
{
    if i < j {
        K::before_irreflexive(keys[i]);
    } else if j < i {
        K::before_irreflexive(keys[i]);
    }
}

impl<K: OrderedKey, V> View for SortedMap<K, V> {
    type V = Map<K::V, V>;

    open spec fn view(&self) -> Map<K::V, V> {
        map_of(self.keys(), self.values())
    }
}

impl<K: OrderedKey, V> SortedMap<K, V> {
    #[verifier::type_invariant]
    spec fn well_formed(self) -> bool {
        &&& self.keys@.len() == self.values@.len()
        &&& ascending::<K>(self.keys@.map_values(|k: K| k@))
    }

    /// The keys, in ascending order.
    pub closed spec fn keys(&self) -> Seq<K::V> {
        self.keys@.map_values(|k: K| k@)
    }

    /// The values, in the order of their keys.
    pub closed spec fn values(&self) -> Seq<V> {
        self.values@
    }

    /// An empty map.
    pub fn new() -> (m: Self)
        ensures
            m.keys() == Seq::<K::V>::empty(),
            m.values() == Seq::<V>::empty(),
            m@ == Map::<K::V, V>::empty(),
    {
        let m = SortedMap { keys: Vec::new(), values: Vec::new() };
        assert(m.keys() =~= Seq::<K::V>::empty());
        assert(m@ =~= Map::<K::V, V>::empty());
        m
    }

    /// The number of entries. There is one value for each key, and the keys
    /// ascend.
    pub fn len(&self) -> (n: usize)
        ensures
            n == self.keys().len(),
            n == self.values().len(),
            ascending::<K>(self.keys()),
    {
        proof {
            use_type_invariant(self);
        }
        self.keys.len()
    }

    /// The key of the entry at place `i`.
    pub fn key_at(&self, i: usize) -> (k: &K)
        requires
            i < self.keys().len(),
        ensures
            k@ == self.keys()[i as int],
    {
        &self.keys[i]
    }

    /// The value of the entry at place `i`.
    pub fn value_at(&self, i: usize) -> (v: &V)
        requires
            i < self.values().len(),
        ensures
            *v == self.values()[i as int],
    {
        &self.values[i]
    }

    /// The value of the entry at place `i`, to be changed in place.
    pub fn value_at_mut(&mut self, i: usize) -> (v: &mut V)
        requires
            i < old(self).values().len(),
        ensures
            *v == old(self).values()[i as int],
            final(self).keys() == old(self).keys(),
            final(self).values() == old(self).values().update(i as int, *final(v)),
            final(self)@ == old(self)@.insert(old(self).keys()[i as int], *final(v)),
    {
        proof {
            use_type_invariant(&*self);
            assert forall|value: V|
                map_of(self.keys(), #[trigger] self.values().update(i as int, value))
                    == self@.insert(self.keys()[i as int], value) by {
                lemma_map_update::<K, V>(self.keys(), self.values(), i as int, value);
            }
        }
        &mut self.values[i]
    }

    /// Where `key` stands, or else where it would have to be inserted.
    fn search(&self, key: &K) -> (r: Result<usize, usize>)
        ensures
            match r {
                Ok(i) => i < self.keys().len() && self.keys()[i as int] == key@,
                Err(i) => {
                    &&& i <= self.keys().len()
                    &&& !self.keys().contains(key@)
                    &&& forall|j: int|
                        0 <= j < i ==> K::before(#[trigger] self.keys()[j], key@)
                    &&& forall|j: int|
                        i <= j < self.keys().len() ==> K::before(key@, #[trigger] self.keys()[j])
                },
            },
    {
        proof {
            use_type_invariant(self);
        }
        let ghost names = self.keys();
        let mut low: usize = 0;
        let mut high: usize = self.keys.len();
        while low < high
            invariant
                names == self.keys(),
                ascending::<K>(names),
                low <= high <= names.len(),
                names.len() == self.keys@.len(),
                forall|j: int| 0 <= j < low ==> K::before(#[trigger] names[j], key@),
                forall|j: int| high <= j < names.len() ==> K::before(key@, #[trigger] names[j]),
            decreases high - low,
        {
            let mid: usize = low + (high - low) / 2;
            assert(names[mid as int] == self.keys@[mid as int]@);
            match key.order(&self.keys[mid]) {
                Order::Equal => {
                    return Ok(mid);
                },
                Order::Less => {
                    proof {
                        assert forall|j: int| mid <= j < names.len() implies K::before(
                            key@,
                            #[trigger] names[j],
                        ) by {
                            if j > mid {
                                K::before_transitive(key@, names[mid as int], names[j]);
                            }
                        }
                    }
                    high = mid;
                },
                Order::Greater => {
                    proof {
                        assert forall|j: int| 0 <= j <= mid implies K::before(
                            #[trigger] names[j],
                            key@,
                        ) by {
                            if j < mid {
                                K::before_transitive(names[j], names[mid as int], key@);
                            }
                        }
                    }
                    low = mid + 1;
                },
            }
        }
        proof {
            K::before_irreflexive(key@);
        }
        Err(low)
    }

    /// The place of the entry under `key`, if there is one.
    pub fn index_of(&self, key: &K) -> (r: Option<usize>)
        ensures
            match r {
                Some(i) => {
                    &&& i < self.keys().len()
                    &&& self.keys()[i as int] == key@
                    &&& self@.contains_key(key@)
                    &&& self.values()[i as int] == self@[key@]
                },
                None => !self@.contains_key(key@),
            },
            self.keys().len() == self.values().len(),
            ascending::<K>(self.keys()),
    {
        proof {
            use_type_invariant(self);
        }
        match self.search(key) {
            Ok(i) => {
                proof {
                    assert(self.keys().contains(key@));
                    ascending_keys_are_distinct::<K>(
                        self.keys(),
                        i as int,
                        self.keys().index_of(key@),
                    );
                }
                Some(i)
            },
            Err(_) => None,
        }
    }

    /// Whether there is an entry under `key`.
    pub fn contains_key(&self, key: &K) -> (r: bool)
        ensures
            r == self@.contains_key(key@),
    {
        self.index_of(key).is_some()
    }

    /// The value under `key`, if there is one.
    pub fn get(&self, key: &K) -> (r: Option<&V>)
        ensures
            match r {
                Some(v) => self@.contains_key(key@) && *v == self@[key@],
                None => !self@.contains_key(key@),
            },
    {
        proof {
            use_type_invariant(self);
        }
        match self.index_of(key) {
            Some(i) => Some(&self.values[i]),
            None => None,
        }
    }

    /// Puts `value` under `key`, in place of what was there.
    pub fn insert(&mut self, key: K, value: V)
        ensures
            final(self)@ == old(self)@.insert(key@, value),
            entered(
                old(self).keys(),
                old(self).values(),
                key@,
                value,
                final(self).keys(),
                final(self).values(),
            ),
            ascending::<K>(final(self).keys()),
            final(self).keys().len() == final(self).values().len(),
    {
        proof {
            use_type_invariant(&*self);
        }
        let ghost old_keys = self.keys();
        let ghost old_values = self.values();
        match self.search(&key) {
            Ok(i) => {
                *self.value_at_mut(i) = value;
                proof {
                    lemma_map_update::<K, V>(old_keys, old_values, i as int, value);
                    assert(old_keys.contains(key@));
                    ascending_keys_are_distinct::<K>(
                        old_keys,
                        i as int,
                        old_keys.index_of(key@),
                    );
                }
            },
            Err(i) => {
                let mut rest = SortedMap { keys: Vec::new(), values: Vec::new() };
                std::mem::swap(self, &mut rest);
                let SortedMap { mut keys, mut values } = rest;
                keys.insert(i, key);
                values.insert(i, value);
                proof {
                    let new_keys = keys@.map_values(|k: K| k@);
                    assert(new_keys =~= old_keys.insert(i as int, key@));
                    assert(values@ == old_values.insert(i as int, value));
                    lemma_map_insert::<K, V>(old_keys, old_values, i as int, key@, value);
                    assert(new_keys[i as int] == key@);
                    ascending_keys_are_distinct::<K>(
                        new_keys,
                        i as int,
                        new_keys.index_of(key@),
                    );
                }
                *self = SortedMap { keys, values };
            },
        }
    }
}

/// The members of a set of keys in ascending order.
pub open spec fn sorted<K: OrderedKey>(keys: Set<K::V>) -> Seq<K::V> {
    choose|s: Seq<K::V>| #[trigger] ascending::<K>(s) && s.to_set() == keys
}

/// There is one ascending list of the members of a set.
pub proof fn ascending_list_is_unique<K: OrderedKey>(a: Seq<K::V>, b: Seq<K::V>)
    requires
        ascending::<K>(a),
        ascending::<K>(b),
        a.to_set() == b.to_set(),
    ensures
        a == b,
    decreases a.len(),
{
    if a.len() == 0 {
        if b.len() > 0 {
            assert(b.to_set().contains(b[0]));
        }
        assert(a =~= b);
    } else {
        assert(a.to_set().contains(a.last()));
        let j = b.index_of(a.last());
        assert(b[j] == a.last());
        assert(b.to_set().contains(b.last()));
        let i = a.index_of(b.last());
        assert(a[i] == b.last());
        if j < b.len() - 1 {
            assert(K::before(b[j], b[b.len() - 1]));
            if i < a.len() - 1 {
                assert(K::before(a[i], a[a.len() - 1]));
                K::before_transitive(a.last(), b.last(), a.last());
            }
            K::before_irreflexive(a.last());
        }
        assert(a.last() == b.last());
        let a_rest = a.drop_last();
        let b_rest = b.drop_last();
        assert forall|k: K::V| a_rest.to_set().contains(k) <==> b_rest.to_set().contains(k) by {
            K::before_irreflexive(a.last());
            if a_rest.contains(k) {
                let p = a_rest.index_of(k);
                assert(K::before(a[p], a[a.len() - 1]));
                assert(a.to_set().contains(k));
                let q = b.index_of(k);
                assert(b_rest[q] == k);
            }
            if b_rest.contains(k) {
                let p = b_rest.index_of(k);
                assert(K::before(b[p], b[b.len() - 1]));
                assert(b.to_set().contains(k));
                let q = a.index_of(k);
                assert(a_rest[q] == k);
            }
        }
        assert(a_rest.to_set() =~= b_rest.to_set());
        ascending_list_is_unique::<K>(a_rest, b_rest);
        assert(a =~= a_rest.push(a.last()));
        assert(b =~= b_rest.push(b.last()));
    }
}

/// An ascending list is the list of its members in ascending order.
pub proof fn ascending_list_is_sorted<K: OrderedKey>(list: Seq<K::V>)
    requires
        ascending::<K>(list),
    ensures
        sorted::<K>(list.to_set()) == list,
{
    ascending_list_is_unique::<K>(sorted::<K>(list.to_set()), list);
}

/// A finite set of keys has an ascending list.
pub proof fn finite_set_is_listed<K: OrderedKey>(keys: Set<K::V>)
    requires
        keys.finite(),
    ensures
        ascending::<K>(sorted::<K>(keys)),
        sorted::<K>(keys).to_set() == keys,
    decreases keys.len(),
{
    if keys.len() == 0 {
        let none = Seq::<K::V>::empty();
        assert(none.to_set() =~= keys);
        assert(ascending::<K>(none));
    } else {
        let key = keys.choose();
        let rest = keys.remove(key);
        finite_set_is_listed::<K>(rest);
        let list = sorted::<K>(rest);
        assert(!list.contains(key)) by {
            if list.contains(key) {
                assert(list.to_set().contains(key));
            }
        }
        let at = lemma_place_for::<K>(list, key);
        let more = list.insert(at, key);
        assert(ascending::<K>(more)) by {
            assert forall|i: int, j: int| 0 <= i < j < more.len() implies K::before(
                #[trigger] more[i],
                #[trigger] more[j],
            ) by {
                if i < at && j == at {
                    assert(more[i] == list[i]);
                } else if i == at {
                    assert(more[j] == list[j - 1]);
                }
            }
        }
        assert forall|k: K::V| more.to_set().contains(k) <==> keys.contains(k) by {
            if more.contains(k) {
                let i = more.index_of(k);
                if i < at {
                    assert(list.to_set().contains(list[i]));
                } else if i > at {
                    assert(list.to_set().contains(list[i - 1]));
                }
            }
            if keys.contains(k) {
                if k == key {
                    assert(more[at] == k);
                } else {
                    assert(list.to_set().contains(k));
                    let i = list.index_of(k);
                    if i < at {
                        assert(more[i] == k);
                    } else {
                        assert(more[i + 1] == k);
                    }
                }
            }
        }
        assert(more.to_set() =~= keys);
    }
}

/// Where a key has to be put so that a list keeps ascending.
proof fn lemma_place_for<K: OrderedKey>(list: Seq<K::V>, key: K::V) -> (at: int)
    requires
        ascending::<K>(list),
        !list.contains(key),
    ensures
        0 <= at <= list.len(),
        forall|i: int| 0 <= i < at ==> K::before(#[trigger] list[i], key),
        forall|i: int| at <= i < list.len() ==> K::before(key, #[trigger] list[i]),
    decreases list.len(),
{
    if list.len() == 0 {
        0
    } else {
        let last = list.last();
        K::before_total(last, key);
        assert(list.contains(last));
        if K::before(last, key) {
            assert forall|i: int| 0 <= i < list.len() implies K::before(#[trigger] list[i], key) by {
                if i < list.len() - 1 {
                    K::before_transitive(list[i], list[list.len() - 1], key);
                }
            }
            list.len() as int
        } else {
            let rest = list.drop_last();
            assert(!rest.contains(key)) by {
                if rest.contains(key) {
                    let i = rest.index_of(key);
                    assert(list[i] == key);
                }
            }
            let at = lemma_place_for::<K>(rest, key);
            assert forall|i: int| 0 <= i < at implies K::before(#[trigger] list[i], key) by {
                assert(rest[i] == list[i]);
            }
            assert forall|i: int| at <= i < list.len() implies K::before(key, #[trigger] list[i]) by {
                if i < list.len() - 1 {
                    assert(rest[i] == list[i]);
                }
            }
            at
        }
    }
}

/// The keys of a map stand in it as the ascending list of its domain.
pub proof fn keys_list_the_domain<K: OrderedKey, V>(m: SortedMap<K, V>)
    requires
        ascending::<K>(m.keys()),
    ensures
        m@.dom() == m.keys().to_set(),
        m@.dom().finite(),
        sorted::<K>(m@.dom()) == m.keys(),
{
    assert(m@.dom() =~= m.keys().to_set());
    vstd::seq_lib::seq_to_set_is_finite(m.keys());
    ascending_list_is_sorted::<K>(m.keys());
}

/// The value of an entry is what the map holds under its key.
pub proof fn value_stands_under_its_key<K: OrderedKey, V>(m: SortedMap<K, V>, i: int)
    requires
        ascending::<K>(m.keys()),
        0 <= i < m.keys().len(),
    ensures
        m@.contains_key(m.keys()[i]),
        m@[m.keys()[i]] == m.values()[i],
{
    assert(m.keys().contains(m.keys()[i]));
    ascending_keys_are_distinct::<K>(m.keys(), i, m.keys().index_of(m.keys()[i]));
}

/// An entry whose key comes behind all others is entered at the end.
pub proof fn last_entry_is_pushed<K: OrderedKey, V>(
    keys: Seq<K::V>,
    values: Seq<V>,
    key: K::V,
    value: V,
    new_keys: Seq<K::V>,
    new_values: Seq<V>,
)
    requires
        keys.len() == values.len(),
        forall|i: int| 0 <= i < keys.len() ==> K::before(#[trigger] keys[i], key),
        entered(keys, values, key, value, new_keys, new_values),
        ascending::<K>(new_keys),
    ensures
        new_keys == keys.push(key),
        new_values == values.push(value),
{
    K::before_irreflexive(key);
    assert(!keys.contains(key));
    let at = new_keys.index_of(key);
    if at < keys.len() {
        assert(new_keys[at] == key);
        assert(new_keys[at + 1] == keys[at]);
        K::before_transitive(key, keys[at], key);
    }
    assert(new_keys =~= keys.push(key));
    assert(new_values =~= values.push(value));
}

/// Replacing the value beside a key is replacing it in the map.
proof fn lemma_map_update<K: OrderedKey, V>(keys: Seq<K::V>, values: Seq<V>, i: int, value: V)
    requires
        ascending::<K>(keys),
        keys.len() == values.len(),
        0 <= i < keys.len(),
    ensures
        map_of(keys, values.update(i, value)) == map_of(keys, values).insert(keys[i], value),
{
    let after = map_of(keys, values.update(i, value));
    let expected = map_of(keys, values).insert(keys[i], value);
    assert(keys.contains(keys[i]));
    assert forall|k: K::V| after.contains_key(k) implies after[k] == expected[k] by {
        let j = keys.index_of(k);
        if k == keys[i] {
            ascending_keys_are_distinct::<K>(keys, i, j);
        }
    }
    assert(after =~= expected);
}

/// Inserting a new key at its place in the order is inserting it in the map.
proof fn lemma_map_insert<K: OrderedKey, V>(
    keys: Seq<K::V>,
    values: Seq<V>,
    i: int,
    key: K::V,
    value: V,
)
    requires
        ascending::<K>(keys),
        keys.len() == values.len(),
        0 <= i <= keys.len(),
        !keys.contains(key),
        forall|j: int| 0 <= j < i ==> K::before(#[trigger] keys[j], key),
        forall|j: int| i <= j < keys.len() ==> K::before(key, #[trigger] keys[j]),
    ensures
        ascending::<K>(keys.insert(i, key)),
        map_of(keys.insert(i, key), values.insert(i, value)) == map_of(keys, values).insert(
            key,
            value,
        ),
{
    let new_keys = keys.insert(i, key);
    let new_values = values.insert(i, value);
    assert(ascending::<K>(new_keys)) by {
        assert forall|a: int, b: int| 0 <= a < b < new_keys.len() implies K::before(
            #[trigger] new_keys[a],
            #[trigger] new_keys[b],
        ) by {
            if a < i && b < i {
                assert(new_keys[a] == keys[a] && new_keys[b] == keys[b]);
            } else if a < i && b == i {
                assert(new_keys[a] == keys[a]);
            } else if a < i {
                assert(new_keys[a] == keys[a] && new_keys[b] == keys[b - 1]);
            } else if a == i {
                assert(new_keys[b] == keys[b - 1]);
            } else {
                assert(new_keys[a] == keys[a - 1] && new_keys[b] == keys[b - 1]);
            }
        }
    }
    let after = map_of(new_keys, new_values);
    let expected = map_of(keys, values).insert(key, value);
    assert(new_keys[i] == key);
    assert forall|k: K::V| after.contains_key(k) <==> expected.contains_key(k) by {
        if new_keys.contains(k) && k != key {
            let j = new_keys.index_of(k);
            assert(keys[if j < i { j } else { j - 1 }] == k);
        }
        if keys.contains(k) {
            let j = keys.index_of(k);
            assert(new_keys[if j < i { j } else { j + 1 }] == k);
        }
    }
    assert forall|k: K::V| after.contains_key(k) implies after[k] == expected[k] by {
        let j = new_keys.index_of(k);
        if k == key {
            ascending_keys_are_distinct::<K>(new_keys, i, j);
        } else {
            let o = keys.index_of(k);
            assert(keys.contains(k));
            let p = if o < i { o } else { o + 1 };
            assert(new_keys[p] == k);
            ascending_keys_are_distinct::<K>(new_keys, p, j);
            assert(new_values[p] == values[o]);
        }
    }
    assert(after =~= expected);
}

/// Texts are kept in dictionary order.
pub proof fn texts_are_in_dictionary_order(a: Seq<char>, b: Seq<char>)
    ensures
        <String as OrderedKey>::before(a, b) <==> text::text_before(a, b),
{
}

} // verus!
