//! Sets and maps kept sorted by the rank of their keys, so that they are walked in key order.

use vstd::prelude::*;
use vstd::relations::total_ordering;
use crate::model::Modeled;
use crate::order::{
    holds_positions, lemma_rank_order, placed_before, rank_before, stable_order, Ranked, Relation,
};

verus! {

/// A value whose model decides its rank.
pub trait Ordered: DeepView {
    /// The rank of a value with this model.
    spec fn rank_of(model: Self::V) -> Seq<Seq<u8>>;
}

/// A key: it is compared by the rank of its model, and different models have different ranks.
pub trait Key: Ordered + Ranked + Modeled {
    /// The rank of a key is the rank of its model.
    proof fn lemma_rank(&self)
        ensures
            self.rank() == Self::rank_of(self.deep_view()),
    ;

    /// Different models have different ranks.
    proof fn lemma_injective(left: Self::V, right: Self::V)
        requires
            Self::rank_of(left) == Self::rank_of(right),
        ensures
            left == right,
    ;
}

/// Strictly increasing in rank.
pub open spec fn increasing<K: Ordered>(items: Seq<K::V>) -> bool {
    forall|i: int, j: int|
        #![trigger items[i], items[j]]
        0 <= i < j < items.len() ==> rank_before(K::rank_of(items[i]), K::rank_of(items[j]))
}

/// Increasing items are distinct.
pub proof fn lemma_increasing_distinct<K: Key>(items: Seq<K::V>)
    requires
        increasing::<K>(items),
    ensures
        items.no_duplicates(),
{
    assert forall|i: int, j: int|
        0 <= i < items.len() && 0 <= j < items.len() && i != j implies items[i] != items[j] by {
        lemma_rank_order(
            K::rank_of(items[i]),
            K::rank_of(items[j]),
            K::rank_of(items[i]),
        );
        if i < j {
            assert(rank_before(K::rank_of(items[i]), K::rank_of(items[j])));
        } else {
            assert(rank_before(K::rank_of(items[j]), K::rank_of(items[i])));
        }
    }
}

/// A set of keys, sorted by rank.
pub struct SortedSet<K: Ordered> {
    list: Vec<K>,
}

impl<K: Ordered> DeepView for SortedSet<K> {
    type V = Set<K::V>;

    open spec fn deep_view(&self) -> Set<K::V> {
        self.items().to_set()
    }
}

impl<K: Ordered> SortedSet<K> {
    /// The members in increasing order.
    pub closed spec fn items(&self) -> Seq<K::V> {
        self.list.deep_view()
    }

    #[verifier::type_invariant]
    spec fn well_formed(&self) -> bool {
        increasing::<K>(self.items())
    }
}

impl<K: Key> SortedSet<K> {
    /// An empty set.
    pub fn new() -> (set: Self)
        ensures
            set.deep_view() == Set::<K::V>::empty(),
            set.items() == Seq::<K::V>::empty(),
    {
        let list: Vec<K> = Vec::new();
        assert(list.deep_view() =~= Seq::<K::V>::empty());
        assert(Seq::<K::V>::empty().to_set() =~= Set::<K::V>::empty());
        SortedSet { list }
    }

    /// The number of members.
    pub fn len(&self) -> (count: usize)
        ensures
            count == self.items().len(),
            count == self.deep_view().len(),
            self.deep_view().finite(),
            increasing::<K>(self.items()),
            self.items().no_duplicates(),
    {
        proof {
            use_type_invariant(&*self);
            lemma_increasing_distinct::<K>(self.items());
            self.items().unique_seq_to_set();
        }
        self.list.len()
    }

    /// The member at position `index` of the increasing order.
    pub fn at(&self, index: usize) -> (item: &K)
        requires
            index < self.items().len(),
        ensures
            item.deep_view() == self.items()[index as int],
    {
        &self.list[index]
    }

    /// Where `key` stands, or where it would be inserted.
    pub fn position(&self, key: &K) -> (place: Result<usize, usize>)
        ensures
            self.deep_view().contains(key.deep_view()) == (place is Ok),
            increasing::<K>(self.items()),
            match place {
                Ok(index) => index < self.items().len() && self.items()[index as int]
                    == key.deep_view(),
                Err(index) => index <= self.items().len() && increasing::<K>(
                    self.items().insert(index as int, key.deep_view()),
                ),
            },
    {
        proof {
            use_type_invariant(&*self);
            key.lemma_rank();
        }
        let ghost items = self.items();
        let ghost rank = K::rank_of(key.deep_view());
        let mut low: usize = 0;
        let mut high: usize = self.list.len();
        while low < high
            invariant
                low <= high <= self.list@.len(),
                items == self.items(),
                rank == K::rank_of(key.deep_view()),
                rank == key.rank(),
                increasing::<K>(items),
                forall|k: int|
                    0 <= k < low ==> rank_before(K::rank_of(#[trigger] items[k]), rank),
                forall|k: int|
                    high <= k < items.len() ==> rank_before(rank, K::rank_of(#[trigger] items[k])),
            decreases high - low,
        {
            let middle: usize = low + (high - low) / 2;
            let ghost pivot = K::rank_of(items[middle as int]);
            proof {
                self.list@[middle as int].lemma_rank();
                lemma_rank_order(rank, pivot, rank);
            }
            match key.relation(&self.list[middle]) {
                Relation::Same => {
                    proof {
                        K::lemma_injective(key.deep_view(), items[middle as int]);
                    }
                    return Ok(middle);
                },
                Relation::Before => {
                    proof {
                        assert forall|k: int| middle <= k < items.len() implies rank_before(
                            rank,
                            K::rank_of(#[trigger] items[k]),
                        ) by {
                            if k > middle {
                                lemma_rank_order(rank, pivot, K::rank_of(items[k]));
                            }
                        }
                    }
                    high = middle;
                },
                Relation::After => {
                    proof {
                        assert forall|k: int| 0 <= k <= middle implies rank_before(
                            K::rank_of(#[trigger] items[k]),
                            rank,
                        ) by {
                            if k < middle {
                                lemma_rank_order(K::rank_of(items[k]), pivot, rank);
                            }
                        }
                    }
                    low = middle + 1;
                },
            }
        }
        proof {
            lemma_rank_order(rank, rank, rank);
            if items.contains(key.deep_view()) {
                let k = choose|k: int| 0 <= k < items.len() && items[k] == key.deep_view();
                assert(rank_before(K::rank_of(items[k]), rank) || rank_before(
                    rank,
                    K::rank_of(items[k]),
                ));
            }
            let grown = items.insert(low as int, key.deep_view());
            assert forall|i: int, j: int|
                #![trigger grown[i], grown[j]]
                0 <= i < j < grown.len() implies rank_before(
                K::rank_of(grown[i]),
                K::rank_of(grown[j]),
            ) by {
                let left = if i < low { i } else { i - 1 };
                let right = if j < low { j } else { j - 1 };
                if i != low && j != low {
                    assert(grown[i] == items[left] && grown[j] == items[right]);
                } else if i == low {
                    assert(grown[j] == items[right]);
                } else {
                    assert(grown[i] == items[left]);
                }
            }
        }
        Err(low)
    }

    /// Whether `key` is a member.
    pub fn contains(&self, key: &K) -> (found: bool)
        ensures
            found == self.deep_view().contains(key.deep_view()),
    {
        self.position(key).is_ok()
    }

    /// Adds `key`, and says whether it was missing.
    pub fn insert(&mut self, key: K) -> (added: bool)
        ensures
            added == !old(self).deep_view().contains(key.deep_view()),
            final(self).deep_view() == old(self).deep_view().insert(key.deep_view()),
    {
        match self.position(&key) {
            Ok(_) => {
                assert(self.deep_view().insert(key.deep_view()) =~= self.deep_view());
                false
            },
            Err(index) => {
                self.insert_at(index, key);
                proof {
                    let before = old(self).items();
                    lemma_insert_members(before, index as int, key.deep_view());
                }
                true
            },
        }
    }

    fn insert_at(&mut self, index: usize, key: K)
        requires
            index <= old(self).items().len(),
            increasing::<K>(old(self).items().insert(index as int, key.deep_view())),
        ensures
            final(self).items() == old(self).items().insert(index as int, key.deep_view()),
    {
        let ghost before = self.items();
        let mut list: Vec<K> = Vec::new();
        assert(list.deep_view() =~= Seq::<K::V>::empty());
        std::mem::swap(&mut list, &mut self.list);
        list.insert(index, key);
        assert(list.deep_view() =~= before.insert(index as int, key.deep_view()));
        self.list = list;
    }

    fn remove_at(&mut self, index: usize)
        requires
            index < old(self).items().len(),
        ensures
            final(self).items() == old(self).items().remove(index as int),
    {
        proof {
            use_type_invariant(&*self);
        }
        let ghost before = self.items();
        let mut list: Vec<K> = Vec::new();
        assert(list.deep_view() =~= Seq::<K::V>::empty());
        std::mem::swap(&mut list, &mut self.list);
        list.remove(index);
        proof {
            let shrunk = before.remove(index as int);
            assert(list.deep_view() =~= shrunk);
            assert forall|i: int, j: int|
                #![trigger shrunk[i], shrunk[j]]
                0 <= i < j < shrunk.len() implies rank_before(
                K::rank_of(shrunk[i]),
                K::rank_of(shrunk[j]),
            ) by {
                let left = if i < index { i } else { i + 1 };
                let right = if j < index { j } else { j + 1 };
                assert(shrunk[i] == before[left] && shrunk[j] == before[right]);
            }
        }
        self.list = list;
    }

    /// Takes `key` out, and says whether it was a member.
    pub fn remove(&mut self, key: &K) -> (removed: bool)
        ensures
            removed == old(self).deep_view().contains(key.deep_view()),
            final(self).deep_view() == old(self).deep_view().remove(key.deep_view()),
    {
        match self.position(key) {
            Ok(index) => {
                self.remove_at(index);
                proof {
                    let before = old(self).items();
                    lemma_increasing_distinct::<K>(before);
                    lemma_remove_members(before, index as int);
                }
                true
            },
            Err(_) => {
                assert(self.deep_view().remove(key.deep_view()) =~= self.deep_view());
                false
            },
        }
    }
}

impl<K: Key> SortedSet<K> {
    /// The members in increasing order.
    pub fn list(&self) -> (list: Vec<K>)
        ensures
            list.deep_view() == self.items(),
            list.deep_view().to_set() == self.deep_view(),
            increasing::<K>(list.deep_view()),
            list.deep_view().no_duplicates(),
    {
        proof {
            use_type_invariant(self);
            lemma_increasing_distinct::<K>(self.items());
        }
        self.list.duplicate()
    }

    /// Adds every key of a list.
    pub fn add_all(&mut self, list: &Vec<K>)
        ensures
            final(self).deep_view() == old(self).deep_view().union(list.deep_view().to_set()),
    {
        let ghost before = self.deep_view();
        let ghost models = list.deep_view();
        let mut i: usize = 0;
        assert(before.union(models.take(0).to_set()) =~= before);
        while i < list.len()
            invariant
                i <= list@.len(),
                models == list.deep_view(),
                self.deep_view() == before.union(models.take(i as int).to_set()),
            decreases list@.len() - i,
        {
            self.insert(list[i].duplicate());
            proof {
                lemma_take_members(models, i as int);
                assert(models[i as int] == list@[i as int].deep_view());
                assert(self.deep_view() =~= before.union(models.take(i + 1).to_set()));
            }
            i += 1;
        }
        assert(models.take(i as int) =~= models);
    }

    /// Adds every member of another set.
    pub fn add_set(&mut self, other: &SortedSet<K>)
        ensures
            final(self).deep_view() == old(self).deep_view().union(other.deep_view()),
    {
        self.add_all(&other.list());
    }

    /// The set of the keys of a list.
    pub fn from_list(list: &Vec<K>) -> (set: Self)
        ensures
            set.deep_view() == list.deep_view().to_set(),
    {
        let mut set = SortedSet::new();
        set.add_all(list);
        assert(Set::<K::V>::empty().union(list.deep_view().to_set()) =~= list.deep_view().to_set());
        set
    }
}

impl<K: Key> Modeled for SortedSet<K> {
    fn duplicate(&self) -> (copy: Self) {
        proof {
            use_type_invariant(&*self);
        }
        SortedSet { list: self.list.duplicate() }
    }

    fn same(&self, other: &Self) -> (equal: bool) {
        proof {
            use_type_invariant(&*self);
            use_type_invariant(&*other);
            if self.items().to_set() == other.items().to_set() {
                lemma_increasing_unique::<K>(self.items(), other.items());
            }
        }
        self.list.same(&other.list)
    }
}

proof fn lemma_insert_members<T>(items: Seq<T>, index: int, item: T)
    requires
        0 <= index <= items.len(),
    ensures
        items.insert(index, item).to_set() == items.to_set().insert(item),
{
    let grown = items.insert(index, item);
    assert forall|x: T| #[trigger] grown.to_set().contains(x) == items.to_set().insert(
        item,
    ).contains(x) by {
        if grown.contains(x) {
            let k = choose|k: int| 0 <= k < grown.len() && grown[k] == x;
            if k < index {
                assert(items[k] == x);
            } else if k > index {
                assert(items[k - 1] == x);
            }
        }
        if items.contains(x) {
            let k = choose|k: int| 0 <= k < items.len() && items[k] == x;
            if k < index {
                assert(grown[k] == x);
            } else {
                assert(grown[k + 1] == x);
            }
        }
        if x == item {
            assert(grown[index] == x);
        }
    }
    assert(grown.to_set() =~= items.to_set().insert(item));
}

proof fn lemma_remove_members<T>(items: Seq<T>, index: int)
    requires
        0 <= index < items.len(),
        items.no_duplicates(),
    ensures
        items.remove(index).to_set() == items.to_set().remove(items[index]),
{
    let shrunk = items.remove(index);
    assert forall|x: T| #[trigger] shrunk.to_set().contains(x) == items.to_set().remove(
        items[index],
    ).contains(x) by {
        if shrunk.contains(x) {
            let k = choose|k: int| 0 <= k < shrunk.len() && shrunk[k] == x;
            if k < index {
                assert(items[k] == x);
            } else {
                assert(items[k + 1] == x);
            }
        }
        if items.contains(x) && x != items[index] {
            let k = choose|k: int| 0 <= k < items.len() && items[k] == x;
            if k < index {
                assert(shrunk[k] == x);
            } else {
                assert(shrunk[k - 1] == x);
            }
        }
    }
    assert(shrunk.to_set() =~= items.to_set().remove(items[index]));
}

/// A set of keys is listed in increasing order in one way only.
pub proof fn lemma_increasing_unique<K: Key>(left: Seq<K::V>, right: Seq<K::V>)
    requires
        increasing::<K>(left),
        increasing::<K>(right),
        left.to_set() == right.to_set(),
    ensures
        left == right,
    decreases left.len(),
{
    lemma_increasing_distinct::<K>(left);
    lemma_increasing_distinct::<K>(right);
    left.unique_seq_to_set();
    right.unique_seq_to_set();
    if left.len() > 0 {
        let last = left.len() - 1;
        assert(left.to_set().contains(left[last]));
        assert(right.contains(left[last]));
        assert(right.to_set().contains(right[last]));
        assert(left.contains(right[last]));
        let i = choose|i: int| 0 <= i < right.len() && right[i] == left[last];
        let j = choose|j: int| 0 <= j < left.len() && left[j] == right[last];
        if left[last] != right[last] {
            assert(i < last && j < last);
            assert(rank_before(K::rank_of(right[i]), K::rank_of(right[last])));
            assert(rank_before(K::rank_of(left[j]), K::rank_of(left[last])));
            lemma_rank_order(
                K::rank_of(left[last]),
                K::rank_of(right[last]),
                K::rank_of(left[last]),
            );
        }
        let shorter_left = left.drop_last();
        let shorter_right = right.drop_last();
        assert(shorter_left =~= left.remove(last));
        assert(shorter_right =~= right.remove(last));
        lemma_remove_members(left, last);
        lemma_remove_members(right, last);
        assert forall|i: int, j: int|
            #![trigger shorter_left[i], shorter_left[j]]
            0 <= i < j < shorter_left.len() implies rank_before(
            K::rank_of(shorter_left[i]),
            K::rank_of(shorter_left[j]),
        ) by {
            assert(shorter_left[i] == left[i] && shorter_left[j] == left[j]);
        }
        assert forall|i: int, j: int|
            #![trigger shorter_right[i], shorter_right[j]]
            0 <= i < j < shorter_right.len() implies rank_before(
            K::rank_of(shorter_right[i]),
            K::rank_of(shorter_right[j]),
        ) by {
            assert(shorter_right[i] == right[i] && shorter_right[j] == right[j]);
        }
        lemma_increasing_unique::<K>(shorter_left, shorter_right);
        assert(left =~= shorter_left.push(left[last]));
        assert(right =~= shorter_right.push(right[last]));
    } else {
        assert(left =~= right);
    }
}

/// One more item adds one more member.
pub proof fn lemma_take_members<T>(items: Seq<T>, i: int)
    requires
        0 <= i < items.len(),
    ensures
        items.take(i + 1).to_set() == items.take(i).to_set().insert(items[i]),
{
    assert(items.take(i + 1) =~= items.take(i).insert(i, items[i]));
    lemma_insert_members(items.take(i), i, items[i]);
}

/// The map that assigns `values[i]` to `keys[i]`.
pub open spec fn paired<K, V>(keys: Seq<K>, values: Seq<V>) -> Map<K, V> {
    Map::new(|key: K| keys.contains(key), |key: K| values[keys.index_of(key)])
}

/// A map whose keys are sorted by rank.
pub struct SortedMap<K: Ordered, V: DeepView> {
    index: SortedSet<K>,
    list: Vec<V>,
}

impl<K: Ordered, V: DeepView> DeepView for SortedMap<K, V> {
    type V = Map<K::V, V::V>;

    open spec fn deep_view(&self) -> Map<K::V, V::V> {
        paired(self.keys(), self.values())
    }
}

impl<K: Ordered, V: DeepView> SortedMap<K, V> {
    /// The keys in increasing order.
    pub closed spec fn keys(&self) -> Seq<K::V> {
        self.index.items()
    }

    /// The values, each at the position of its key.
    pub closed spec fn values(&self) -> Seq<V::V> {
        self.list.deep_view()
    }

    #[verifier::type_invariant]
    spec fn well_formed(&self) -> bool {
        self.index.items().len() == self.list@.len()
    }
}

impl<K: Key, V: Modeled> SortedMap<K, V> {
    /// An empty map.
    pub fn new() -> (map: Self)
        ensures
            map.deep_view() == Map::<K::V, V::V>::empty(),
            map.keys().len() == 0,
    {
        let map = SortedMap { index: SortedSet::new(), list: Vec::new() };
        assert(map.deep_view() =~= Map::<K::V, V::V>::empty());
        map
    }

    /// The number of keys.
    pub fn len(&self) -> (count: usize)
        ensures
            count == self.keys().len(),
            count == self.values().len(),
            count == self.deep_view().len(),
            self.deep_view().dom().finite(),
            self.deep_view().dom() == self.keys().to_set(),
            increasing::<K>(self.keys()),
            self.keys().no_duplicates(),
            forall|i: int|
                #![trigger self.keys()[i]]
                0 <= i < self.keys().len() ==> self.deep_view().contains_key(self.keys()[i])
                    && self.deep_view()[self.keys()[i]] == self.values()[i],
    {
        proof {
            use_type_invariant(&*self);
        }
        let count = self.index.len();
        proof {
            assert(self.deep_view().dom() =~= self.keys().to_set());
            assert forall|i: int|
                #![trigger self.keys()[i]]
                0 <= i < self.keys().len() implies self.deep_view().contains_key(self.keys()[i])
                && self.deep_view()[self.keys()[i]] == self.values()[i] by {
                assert(self.keys().contains(self.keys()[i]));
            }
        }
        count
    }

    /// The key at position `index` of the increasing order.
    pub fn key_at(&self, index: usize) -> (key: &K)
        requires
            index < self.keys().len(),
        ensures
            key.deep_view() == self.keys()[index as int],
            self.deep_view().contains_key(key.deep_view()),
    {
        let key = self.index.at(index);
        assert(self.keys().contains(self.keys()[index as int]));
        key
    }

    /// The value at position `index` of the increasing order of the keys.
    pub fn value_at(&self, index: usize) -> (value: &V)
        requires
            index < self.keys().len(),
        ensures
            value.deep_view() == self.values()[index as int],
            value.deep_view() == self.deep_view()[self.keys()[index as int]],
    {
        let count = self.len();
        proof {
            use_type_invariant(&*self);
            assert(self.keys()[index as int] == self.keys()[index as int]);
        }
        &self.list[index]
    }

    /// The value assigned to `key`.
    pub fn get(&self, key: &K) -> (value: Option<&V>)
        ensures
            match value {
                Some(found) => self.deep_view().contains_key(key.deep_view())
                    && found.deep_view() == self.deep_view()[key.deep_view()],
                None => !self.deep_view().contains_key(key.deep_view()),
            },
    {
        match self.index.position(key) {
            Ok(index) => Some(self.value_at(index)),
            Err(_) => None,
        }
    }

    /// Whether a value is assigned to `key`.
    pub fn contains_key(&self, key: &K) -> (found: bool)
        ensures
            found == self.deep_view().contains_key(key.deep_view()),
    {
        self.index.contains(key)
    }

    /// Assigns `value` to `key`, and hands out the value it replaces.
    pub fn insert(&mut self, key: K, value: V) -> (replaced: Option<V>)
        ensures
            final(self).deep_view() == old(self).deep_view().insert(
                key.deep_view(),
                value.deep_view(),
            ),
            match replaced {
                Some(before) => old(self).deep_view().contains_key(key.deep_view())
                    && before.deep_view() == old(self).deep_view()[key.deep_view()],
                None => !old(self).deep_view().contains_key(key.deep_view()),
            },
    {
        let ghost keys = self.keys();
        let ghost values = self.values();
        let ghost key_model = key.deep_view();
        let ghost value_model = value.deep_view();
        let count = self.len();
        proof {
            use_type_invariant(&*self);
        }
        let place = self.index.position(&key);
        let mut taken: SortedMap<K, V> = SortedMap::new();
        std::mem::swap(&mut taken, self);
        proof {
            use_type_invariant(&taken);
        }
        let SortedMap { mut index, mut list } = taken;
        match place {
            Ok(position) => {
                list.push(value);
                let replaced = list.swap_remove(position);
                proof {
                    assert(list.deep_view() =~= values.update(position as int, value_model));
                    assert forall|i: int| 0 <= i < keys.len() implies #[trigger] keys.index_of(
                        keys[i],
                    ) == i by {
                        assert(keys.contains(keys[i]));
                    }
                    assert(paired(keys, values.update(position as int, value_model)) =~= paired(
                        keys,
                        values,
                    ).insert(key_model, value_model));
                    assert(replaced.deep_view() == values[position as int]);
                }
                *self = SortedMap { index, list };
                Some(replaced)
            },
            Err(position) => {
                index.insert_at(position, key);
                list.insert(position, value);
                proof {
                    let grown = keys.insert(position as int, key_model);
                    let more = values.insert(position as int, value_model);
                    assert(list.deep_view() =~= more);
                    lemma_increasing_distinct::<K>(grown);
                    lemma_insert_members(keys, position as int, key_model);
                    assert(paired(grown, more).dom() =~= paired(keys, values).insert(
                        key_model,
                        value_model,
                    ).dom()) by {
                        assert forall|k: K::V| grown.contains(k) == (keys.contains(k) || k
                            == key_model) by {
                            assert(grown.to_set().contains(k) == keys.to_set().insert(
                                key_model,
                            ).contains(k));
                        }
                    }
                    assert forall|k: K::V| grown.contains(k) implies #[trigger] paired(grown, more)[k]
                        == paired(keys, values).insert(key_model, value_model)[k] by {
                        let at = grown.index_of(k);
                        if at == position {
                        } else if at < position {
                            assert(keys[at] == k);
                            assert(keys.contains(k));
                            assert(keys.index_of(k) == at);
                        } else {
                            assert(keys[at - 1] == k);
                            assert(keys.contains(k));
                            assert(keys.index_of(k) == at - 1);
                        }
                    }
                    assert(paired(grown, more) =~= paired(keys, values).insert(
                        key_model,
                        value_model,
                    ));
                }
                *self = SortedMap { index, list };
                None
            },
        }
    }

    /// Takes `key` out, and hands out its value.
    pub fn remove(&mut self, key: &K) -> (removed: Option<V>)
        ensures
            final(self).deep_view() == old(self).deep_view().remove(key.deep_view()),
            match removed {
                Some(value) => old(self).deep_view().contains_key(key.deep_view())
                    && value.deep_view() == old(self).deep_view()[key.deep_view()],
                None => !old(self).deep_view().contains_key(key.deep_view()),
            },
    {
        let ghost keys = self.keys();
        let ghost values = self.values();
        let ghost key_model = key.deep_view();
        let count = self.len();
        proof {
            use_type_invariant(&*self);
        }
        match self.index.position(key) {
            Err(_) => {
                assert(self.deep_view().remove(key_model) =~= self.deep_view());
                None
            },
            Ok(position) => {
                let mut taken: SortedMap<K, V> = SortedMap::new();
                std::mem::swap(&mut taken, self);
                proof {
                    use_type_invariant(&taken);
                }
                let SortedMap { mut index, mut list } = taken;
                index.remove_at(position);
                let removed = list.remove(position);
                proof {
                    let shrunk = keys.remove(position as int);
                    let fewer = values.remove(position as int);
                    assert(list.deep_view() =~= fewer);
                    lemma_remove_members(keys, position as int);
                    assert forall|k: K::V| shrunk.contains(k) == (keys.contains(k) && k
                        != key_model) by {
                        assert(shrunk.to_set().contains(k) == keys.to_set().remove(
                            keys[position as int],
                        ).contains(k));
                    }
                    assert(paired(shrunk, fewer).dom() =~= paired(keys, values).remove(
                        key_model,
                    ).dom());
                    assert forall|k: K::V| shrunk.contains(k) implies #[trigger] paired(
                        shrunk,
                        fewer,
                    )[k] == paired(keys, values)[k] by {
                        let at = shrunk.index_of(k);
                        if at < position {
                            assert(keys[at] == k);
                            assert(keys.index_of(k) == at);
                        } else {
                            assert(keys[at + 1] == k);
                            assert(keys.index_of(k) == at + 1);
                        }
                    }
                    assert(paired(shrunk, fewer) =~= paired(keys, values).remove(key_model));
                }
                *self = SortedMap { index, list };
                Some(removed)
            },
        }
    }
}

impl<K: Key, V: Modeled> SortedMap<K, V> {
    /// The keys in increasing order.
    pub fn key_list(&self) -> (list: Vec<K>)
        ensures
            list.deep_view() == self.keys(),
            list.deep_view().to_set() == self.deep_view().dom(),
            list.deep_view().no_duplicates(),
    {
        let count = self.len();
        self.index.list()
    }

    /// Assigns every value of another map, replacing what was assigned before.
    pub fn extend(&mut self, other: &SortedMap<K, V>)
        ensures
            final(self).deep_view() == old(self).deep_view().union_prefer_right(
                other.deep_view(),
            ),
    {
        let ghost before = self.deep_view();
        let ghost more = other.deep_view();
        let ghost keys = other.keys();
        let count = other.len();
        let mut i: usize = 0;
        assert(self.deep_view() =~= before.union_prefer_right(
            more.restrict(keys.take(0).to_set()),
        ));
        while i < count
            invariant
                i <= count,
                count == keys.len(),
                keys == other.keys(),
                more == other.deep_view(),
                more.dom() == keys.to_set(),
                self.deep_view() == before.union_prefer_right(
                    more.restrict(keys.take(i as int).to_set()),
                ),
            decreases count - i,
        {
            let key = other.key_at(i);
            let value = other.value_at(i);
            self.insert(key.duplicate(), value.duplicate());
            proof {
                lemma_take_members(keys, i as int);
                assert(self.deep_view() =~= before.union_prefer_right(
                    more.restrict(keys.take(i + 1).to_set()),
                ));
            }
            i += 1;
        }
        assert(keys.take(i as int) =~= keys);
        assert(more.restrict(keys.to_set()) =~= more);
    }

    /// Takes every key of a list out.
    pub fn remove_all(&mut self, list: &Vec<K>)
        ensures
            final(self).deep_view() == old(self).deep_view().remove_keys(
                list.deep_view().to_set(),
            ),
    {
        let ghost before = self.deep_view();
        let ghost models = list.deep_view();
        let mut i: usize = 0;
        assert(before.remove_keys(models.take(0).to_set()) =~= before);
        while i < list.len()
            invariant
                i <= list@.len(),
                models == list.deep_view(),
                self.deep_view() == before.remove_keys(models.take(i as int).to_set()),
            decreases list@.len() - i,
        {
            self.remove(&list[i]);
            proof {
                lemma_take_members(models, i as int);
                assert(models[i as int] == list@[i as int].deep_view());
                assert(self.deep_view() =~= before.remove_keys(models.take(i + 1).to_set()));
            }
            i += 1;
        }
        assert(models.take(i as int) =~= models);
    }
}

impl<K: Key, V: Modeled> Modeled for SortedMap<K, V> {
    fn duplicate(&self) -> (copy: Self) {
        let count = self.len();
        proof {
            use_type_invariant(&*self);
        }
        let index = self.index.duplicate();
        proof {
            use_type_invariant(&self.index);
            use_type_invariant(&index);
            lemma_increasing_unique::<K>(self.index.items(), index.items());
        }
        SortedMap { index, list: self.list.duplicate() }
    }

    fn same(&self, other: &Self) -> (equal: bool) {
        let count = self.len();
        let other_count = other.len();
        proof {
            if self.deep_view() == other.deep_view() {
                lemma_increasing_unique::<K>(self.keys(), other.keys());
                assert forall|i: int| 0 <= i < self.values().len() implies #[trigger] self.values()[i]
                    == other.values()[i] by {
                    assert(self.deep_view()[self.keys()[i]] == other.deep_view()[other.keys()[i]]);
                }
                assert(self.values() =~= other.values());
            }
        }
        if !self.index.same(&other.index) {
            return false;
        }
        proof {
            lemma_increasing_unique::<K>(self.keys(), other.keys());
        }
        self.list.same(&other.list)
    }
}

/// Not after in rank.
pub open spec fn not_after<K: Ordered>() -> spec_fn(K::V, K::V) -> bool {
    |a: K::V, b: K::V| a == b || rank_before(K::rank_of(a), K::rank_of(b))
}

/// The items in rank order, each as often as it occurs.
pub open spec fn in_rank_order<K: Ordered>(items: Seq<K::V>) -> Seq<K::V> {
    items.sort_by(not_after::<K>())
}

proof fn lemma_rank_is_total<K: Key>()
    ensures
        total_ordering(not_after::<K>()),
{
    let leq = not_after::<K>();
    assert forall|a: K::V| #[trigger] leq(a, a) by {}
    assert forall|a: K::V, b: K::V| #[trigger] leq(a, b) && #[trigger] leq(b, a) implies a == b by {
        lemma_rank_order(K::rank_of(a), K::rank_of(b), K::rank_of(a));
    }
    assert forall|a: K::V, b: K::V, c: K::V| #[trigger]
        leq(a, b) && #[trigger] leq(b, c) implies leq(a, c) by {
        lemma_rank_order(K::rank_of(a), K::rank_of(b), K::rank_of(c));
    }
    assert forall|a: K::V, b: K::V| #[trigger] leq(a, b) || leq(b, a) by {
        lemma_rank_order(K::rank_of(a), K::rank_of(b), K::rank_of(a));
        if K::rank_of(a) == K::rank_of(b) {
            K::lemma_injective(a, b);
        }
    }
}

proof fn lemma_rearranged<A>(items: Seq<A>, order: Seq<int>)
    requires
        order.len() == items.len(),
        order.no_duplicates(),
        forall|i: int| 0 <= i < order.len() ==> 0 <= #[trigger] order[i] < items.len(),
        forall|p: int| 0 <= p < items.len() ==> #[trigger] order.contains(p),
    ensures
        Seq::new(items.len(), |i: int| items[order[i]]).to_multiset() == items.to_multiset(),
    decreases items.len(),
{
    broadcast use vstd::seq_lib::group_to_multiset_ensures;

    let moved = Seq::new(items.len(), |i: int| items[order[i]]);
    if items.len() == 0 {
        assert(moved =~= items);
    } else {
        let last = items.len() - 1;
        assert(order.contains(last));
        let j = choose|j: int| 0 <= j < order.len() && order[j] == last;
        let fewer = items.drop_last();
        let shorter = order.remove(j);
        assert forall|i: int| 0 <= i < shorter.len() implies 0 <= #[trigger] shorter[i]
            < fewer.len() by {
            let at = if i < j {
                i
            } else {
                i + 1
            };
            assert(shorter[i] == order[at]);
            assert(order[at] != order[j]);
        }
        assert forall|p: int| 0 <= p < fewer.len() implies #[trigger] shorter.contains(p) by {
            assert(order.contains(p));
            let at = choose|at: int| 0 <= at < order.len() && order[at] == p;
            if at < j {
                assert(shorter[at] == p);
            } else {
                assert(shorter[at - 1] == p);
            }
        }
        lemma_rearranged(fewer, shorter);
        let rest = Seq::new(fewer.len(), |i: int| fewer[shorter[i]]);
        assert(rest =~= moved.remove(j));
        assert(fewer.push(items[last]) =~= items);
        assert(moved[j] == items[last]);
        assert(moved.to_multiset() =~= moved.remove(j).to_multiset().insert(items[last]));
    }
}

/// Sorts a list by rank.
pub fn sorted_list<K: Key>(list: &Vec<K>) -> (sorted: Vec<K>)
    ensures
        sorted.deep_view() == in_rank_order::<K>(list.deep_view()),
{
    let ghost models = list.deep_view();
    let order = stable_order(list);
    let mut sorted: Vec<K> = Vec::new();
    let mut i: usize = 0;
    while i < order.len()
        invariant
            i <= order@.len(),
            models == list.deep_view(),
            order@.len() == list@.len(),
            holds_positions(order@, 0, list@.len() as int),
            sorted@.len() == i,
            forall|k: int|
                0 <= k < i ==> (#[trigger] sorted@[k]).deep_view() == models[order@[k] as int],
        decreases order@.len() - i,
    {
        assert(0 <= order@[i as int] < list@.len());
        assert(models[order@[i as int] as int] == list@[order@[i as int] as int].deep_view());
        sorted.push(list[order[i]].duplicate());
        i += 1;
    }
    proof {
        let leq = not_after::<K>();
        let positions = Seq::new(order@.len(), |k: int| order@[k] as int);
        let result = sorted.deep_view();
        lemma_rank_is_total::<K>();
        assert forall|x: int, y: int|
            0 <= x < positions.len() && 0 <= y < positions.len() && x != y implies positions[x]
            != positions[y] by {
            lemma_rank_order(
                list@[order@[x] as int].rank(),
                list@[order@[x] as int].rank(),
                list@[order@[x] as int].rank(),
            );
            if x < y {
                assert(placed_before(list@, order@[x] as int, order@[y] as int));
            } else {
                assert(placed_before(list@, order@[y] as int, order@[x] as int));
            }
        }
        assert forall|p: int| 0 <= p < models.len() implies #[trigger] positions.contains(p) by {
            assert(order@.contains(p as usize));
            let k = choose|k: int| 0 <= k < order@.len() && order@[k] == p as usize;
            assert(positions[k] == p);
        }
        assert forall|k: int| 0 <= k < positions.len() implies 0 <= #[trigger] positions[k]
            < models.len() by {
            assert(0 <= order@[k] < list@.len());
        }
        lemma_rearranged(models, positions);
        assert(result =~= Seq::new(models.len(), |k: int| models[positions[k]]));
        assert forall|x: int, y: int| 0 <= x < y < result.len() implies #[trigger] leq(
            result[x],
            result[y],
        ) by {
            let p = order@[x] as int;
            let q = order@[y] as int;
            assert(placed_before(list@, p, q));
            list@[p].lemma_rank();
            list@[q].lemma_rank();
            assert(result[x] == list@[p].deep_view());
            assert(result[y] == list@[q].deep_view());
            if list@[p].rank() == list@[q].rank() {
                K::lemma_injective(result[x], result[y]);
            }
        }
        models.lemma_sort_by_ensures(leq);
        vstd::seq_lib::lemma_sorted_unique(result, models.sort_by(leq), leq);
    }
    sorted
}

/// The order in which items are given does not matter once they are sorted.
pub proof fn lemma_sorting_ignores_order<K: Key>(left: Seq<K::V>, right: Seq<K::V>)
    requires
        left.to_multiset() == right.to_multiset(),
    ensures
        in_rank_order::<K>(left) == in_rank_order::<K>(right),
{
    let leq = not_after::<K>();
    lemma_rank_is_total::<K>();
    left.lemma_sort_by_ensures(leq);
    right.lemma_sort_by_ensures(leq);
    vstd::seq_lib::lemma_sorted_unique(left.sort_by(leq), right.sort_by(leq), leq);
}

/// Putting items in rank order neither adds nor drops any.
pub proof fn lemma_sorting_keeps_items<K: Key>(items: Seq<K::V>)
    ensures
        in_rank_order::<K>(items).to_multiset() == items.to_multiset(),
{
    lemma_rank_is_total::<K>();
    items.lemma_sort_by_ensures(not_after::<K>());
}

} // verus!
