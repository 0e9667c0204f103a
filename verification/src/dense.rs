//! Sets and maps over dense indices.
//!
//! Definitions, locals, basic blocks and types are all numbered from zero, so a
//! vector indexed by that number is both a set and a map. Iteration runs in
//! ascending order, which makes every stage of the analysis deterministic.

use vstd::prelude::*;

verus! {

/// A set of indices.
#[derive(Debug)]
pub struct DenseSet {
    bits: Vec<bool>,
}

impl View for DenseSet {
    type V = Set<usize>;

    closed spec fn view(&self) -> Set<usize> {
        Set::new(|i: usize| i < self.bits@.len() && self.bits@[i as int])
    }
}

impl DenseSet {
    pub fn new() -> (set: Self)
        ensures
            set@ == Set::<usize>::empty(),
    {
        let set = DenseSet { bits: Vec::new() };
        assert(set@ =~= Set::<usize>::empty());
        set
    }

    pub fn contains(&self, index: usize) -> (found: bool)
        ensures
            found == self@.contains(index),
    {
        index < self.bits.len() && self.bits[index]
    }

    /// An index above every element, so that `0..bound()` visits them all.
    pub(crate) fn bound(&self) -> (bound: usize)
        ensures
            forall|i: usize| #[trigger] self@.contains(i) ==> i < bound,
    {
        self.bits.len()
    }

    /// Adds `index` and returns whether it was absent before.
    pub fn insert(&mut self, index: usize) -> (newly: bool)
        ensures
            final(self)@ == old(self)@.insert(index),
            newly == !old(self)@.contains(index),
    {
        let newly = !self.contains(index);
        while self.bits.len() <= index
            invariant
                self@ == old(self)@,
            decreases index + 1 - self.bits.len(),
        {
            let ghost before = self@;
            self.bits.push(false);
            assert(self@ =~= before);
        }
        self.bits.set(index, true);
        assert(self@ =~= old(self)@.insert(index));
        newly
    }

    pub fn is_empty(&self) -> (empty: bool)
        ensures
            empty == (self@ == Set::<usize>::empty()),
    {
        for i in 0..self.bits.len()
            invariant
                forall|j: usize| j < i ==> !self@.contains(j),
        {
            if self.bits[i] {
                assert(self@.contains(i));
                return false;
            }
        }
        assert(self@ =~= Set::<usize>::empty());
        true
    }

    /// Adds every element of `other`.
    pub fn extend(&mut self, other: &DenseSet)
        ensures
            final(self)@ == old(self)@.union(other@),
    {
        for i in 0..other.bits.len()
            invariant
                self@ == old(self)@.union(other@.filter(|j: usize| j < i)),
        {
            if other.bits[i] {
                self.insert(i);
            }
            assert(self@ =~= old(self)@.union(other@.filter(|j: usize| j < i + 1)));
        }
        assert(self@ =~= old(self)@.union(other@));
    }

    /// The number of elements.
    pub fn len(&self) -> (count: usize)
        ensures
            self@.finite(),
            count == self@.len(),
    {
        let mut count: usize = 0;
        assert(self@.filter(|j: usize| j < 0) =~= Set::<usize>::empty());
        for i in 0..self.bits.len()
            invariant
                count <= i,
                self@.filter(|j: usize| j < i).finite(),
                count == self@.filter(|j: usize| j < i).len(),
        {
            if self.bits[i] {
                assert(self@.filter(|j: usize| j < i + 1) =~= self@.filter(|j: usize| j < i).insert(i));
                count = count + 1;
            } else {
                assert(self@.filter(|j: usize| j < i + 1) =~= self@.filter(|j: usize| j < i));
            }
        }
        assert(self@.filter(|j: usize| j < self.bits@.len()) =~= self@);
        count
    }
}

impl Clone for DenseSet {
    fn clone(&self) -> (copy: Self)
        ensures
            copy@ == self@,
    {
        let copy = DenseSet { bits: self.bits.clone() };
        assert(copy.bits@ =~= self.bits@);
        copy
    }
}

/// A map from indices to values.
#[derive(Debug)]
pub struct DenseMap<V> {
    slots: Vec<Option<V>>,
}

impl<V> View for DenseMap<V> {
    type V = Map<usize, V>;

    closed spec fn view(&self) -> Map<usize, V> {
        Map::new(
            |i: usize| i < self.slots@.len() && self.slots@[i as int] is Some,
            |i: usize| self.slots@[i as int]->0,
        )
    }
}

impl<V> DenseMap<V> {
    pub fn new() -> (map: Self)
        ensures
            map@ == Map::<usize, V>::empty(),
    {
        let map = DenseMap { slots: Vec::new() };
        assert(map@ =~= Map::<usize, V>::empty());
        map
    }

    pub fn contains_key(&self, key: usize) -> (found: bool)
        ensures
            found == self@.contains_key(key),
    {
        key < self.slots.len() && self.slots[key].is_some()
    }

    pub fn get(&self, key: usize) -> (value: Option<&V>)
        ensures
            value == (if self@.contains_key(key) {
                Some(&self@[key])
            } else {
                None
            }),
    {
        if key < self.slots.len() {
            self.slots[key].as_ref()
        } else {
            None
        }
    }

    /// A key above every key in use, so that `0..bound()` visits them all.
    pub(crate) fn bound(&self) -> (bound: usize)
        ensures
            forall|i: usize| #[trigger] self@.contains_key(i) ==> i < bound,
    {
        self.slots.len()
    }

    /// Binds `key` to `value`, replacing what it was bound to before.
    pub fn insert(&mut self, key: usize, value: V)
        ensures
            final(self)@ == old(self)@.insert(key, value),
    {
        while self.slots.len() <= key
            invariant
                self@ == old(self)@,
            decreases key + 1 - self.slots.len(),
        {
            let ghost before = self@;
            self.slots.push(None);
            assert(self@ =~= before);
        }
        self.slots.set(key, Some(value));
        assert(self@ =~= old(self)@.insert(key, value));
    }

    /// Takes the value of `key` out of the map.
    pub fn remove(&mut self, key: usize) -> (value: Option<V>)
        ensures
            final(self)@ == old(self)@.remove(key),
            value == (if old(self)@.contains_key(key) {
                Some(old(self)@[key])
            } else {
                None
            }),
    {
        if key < self.slots.len() {
            let mut value: Option<V> = None;
            std::mem::swap(&mut value, &mut self.slots[key]);
            assert(self@ =~= old(self)@.remove(key));
            value
        } else {
            assert(self@ =~= old(self)@.remove(key));
            None
        }
    }

    /// The number of keys.
    pub fn len(&self) -> (count: usize)
        ensures
            self@.dom().finite(),
            count == self@.dom().len(),
    {
        let mut count: usize = 0;
        assert(self@.dom().filter(|j: usize| j < 0) =~= Set::<usize>::empty());
        for i in 0..self.slots.len()
            invariant
                count <= i,
                self@.dom().filter(|j: usize| j < i).finite(),
                count == self@.dom().filter(|j: usize| j < i).len(),
        {
            if self.slots[i].is_some() {
                assert(self@.dom().filter(|j: usize| j < i + 1) =~= self@.dom().filter(
                    |j: usize| j < i,
                ).insert(i));
                count = count + 1;
            } else {
                assert(self@.dom().filter(|j: usize| j < i + 1) =~= self@.dom().filter(
                    |j: usize| j < i,
                ));
            }
        }
        assert(self@.dom().filter(|j: usize| j < self.slots@.len()) =~= self@.dom());
        count
    }
}

/// A set of index pairs.
#[derive(Debug)]
pub struct PairSet {
    rows: Vec<DenseSet>,
}

impl View for PairSet {
    type V = Set<(usize, usize)>;

    closed spec fn view(&self) -> Set<(usize, usize)> {
        Set::new(
            |p: (usize, usize)| p.0 < self.rows@.len() && self.rows@[p.0 as int]@.contains(p.1),
        )
    }
}

impl PairSet {
    pub fn new() -> (set: Self)
        ensures
            set@ == Set::<(usize, usize)>::empty(),
    {
        let set = PairSet { rows: Vec::new() };
        assert(set@ =~= Set::<(usize, usize)>::empty());
        set
    }

    pub fn contains(&self, first: usize, second: usize) -> (found: bool)
        ensures
            found == self@.contains((first, second)),
    {
        first < self.rows.len() && self.rows[first].contains(second)
    }

    /// Adds the pair and returns whether it was absent before.
    pub fn insert(&mut self, first: usize, second: usize) -> (newly: bool)
        ensures
            final(self)@ == old(self)@.insert((first, second)),
            newly == !old(self)@.contains((first, second)),
    {
        while self.rows.len() <= first
            invariant
                self@ == old(self)@,
            decreases first + 1 - self.rows.len(),
        {
            let ghost before = self@;
            self.rows.push(DenseSet::new());
            assert(self@ =~= before);
        }
        let ghost before = self.rows@;
        let newly = self.rows[first].insert(second);
        assert(self@ =~= old(self)@.insert((first, second)));
        newly
    }

    /// The elements whose first component is `first`, by their second one.
    pub fn row(&self, first: usize) -> (row: DenseSet)
        ensures
            forall|j: usize| #[trigger] row@.contains(j) == self@.contains((first, j)),
    {
        if first < self.rows.len() {
            self.rows[first].clone()
        } else {
            DenseSet::new()
        }
    }

    /// The number of elements.
    #[verifier::loop_isolation(false)]
    pub fn len(&self) -> (count: u128)
        ensures
            self@.finite(),
            count == self@.len(),
    {
        let mut count: u128 = 0;
        assert(self@.filter(|p: (usize, usize)| p.0 < 0) =~= Set::<(usize, usize)>::empty());
        for i in 0..self.rows.len()
            invariant
                self@.filter(|p: (usize, usize)| p.0 < i).finite(),
                count == self@.filter(|p: (usize, usize)| p.0 < i).len(),
                count <= i * (usize::MAX as int),
        {
            let bound: usize = self.rows[i].bound();
            assert(self@.filter(|p: (usize, usize)| p.0 < i) =~= self@.filter(
                |p: (usize, usize)| p.0 < i || (p.0 == i && p.1 < 0),
            ));
            for j in 0..bound
                invariant
                    self@.filter(|p: (usize, usize)| p.0 < i || (p.0 == i && p.1 < j)).finite(),
                    count == self@.filter(
                        |p: (usize, usize)| p.0 < i || (p.0 == i && p.1 < j),
                    ).len(),
                    count <= i * (usize::MAX as int) + j,
            {
                let ghost before = self@.filter(
                    |p: (usize, usize)| p.0 < i || (p.0 == i && p.1 < j),
                );
                let ghost after = self@.filter(
                    |p: (usize, usize)| p.0 < i || (p.0 == i && p.1 < j + 1),
                );
                assert(i * (usize::MAX as int) + j < u128::MAX) by (nonlinear_arith)
                    requires
                        i <= usize::MAX,
                        j <= usize::MAX,
                        usize::MAX <= 0xffff_ffff_ffff_ffff,
                ;
                if self.rows[i].contains(j) {
                    assert(after =~= before.insert((i, j)));
                    count = count + 1;
                } else {
                    assert(after =~= before);
                }
            }
            assert(self@.filter(|p: (usize, usize)| p.0 < i + 1) =~= self@.filter(
                |p: (usize, usize)| p.0 < i || (p.0 == i && p.1 < bound),
            ));
            assert(i * (usize::MAX as int) + bound <= (i + 1) * (usize::MAX as int))
                by (nonlinear_arith)
                requires
                    bound <= usize::MAX,
            ;
        }
        assert(self@.filter(|p: (usize, usize)| p.0 < self.rows@.len()) =~= self@);
        count
    }

    pub fn is_empty(&self) -> (empty: bool)
        ensures
            empty == (self@ == Set::<(usize, usize)>::empty()),
    {
        for i in 0..self.rows.len()
            invariant
                forall|p: (usize, usize)| p.0 < i ==> !self@.contains(p),
        {
            if !self.rows[i].is_empty() {
                proof {
                    let row = self.rows@[i as int]@;
                    if forall|j: usize| !row.contains(j) {
                        assert(row =~= Set::<usize>::empty());
                    }
                    let j = choose|j: usize| row.contains(j);
                    assert(self@.contains((i, j)));
                }
                return false;
            }
            assert(self.rows@[i as int]@ == Set::<usize>::empty());
            assert forall|p: (usize, usize)| p.0 < i + 1 implies !self@.contains(p) by {
                if p.0 == i {
                    assert(!self.rows@[i as int]@.contains(p.1));
                }
            }
        }
        assert(self@ =~= Set::<(usize, usize)>::empty());
        true
    }

    /// Adds every element of `other`.
    pub fn extend(&mut self, other: &PairSet)
        ensures
            final(self)@ == old(self)@.union(other@),
    {
        for i in 0..other.rows.len()
            invariant
                self@ == old(self)@.union(other@.filter(|p: (usize, usize)| p.0 < i)),
        {
            let bound: usize = other.rows[i].bound();
            for j in 0..bound
                invariant
                    0 <= i < other.rows@.len(),
                    forall|k: usize| #[trigger] other.rows@[i as int]@.contains(k) ==> k < bound,
                    self@ == old(self)@.union(
                        other@.filter(|p: (usize, usize)| p.0 < i || (p.0 == i && p.1 < j)),
                    ),
            {
                if other.rows[i].contains(j) {
                    self.insert(i, j);
                }
                assert(self@ =~= old(self)@.union(
                    other@.filter(|p: (usize, usize)| p.0 < i || (p.0 == i && p.1 < j + 1)),
                ));
            }
            assert(self@ =~= old(self)@.union(other@.filter(|p: (usize, usize)| p.0 < i + 1)));
        }
        assert(self@ =~= old(self)@.union(other@));
    }
}

impl Clone for PairSet {
    fn clone(&self) -> (copy: Self)
        ensures
            copy@ == self@,
    {
        let mut copy = PairSet::new();
        copy.extend(self);
        assert(copy@ =~= self@);
        copy
    }
}

/// A map from index pairs to values.
#[derive(Debug)]
pub struct PairMap<V> {
    rows: Vec<DenseMap<V>>,
}

impl<V> View for PairMap<V> {
    type V = Map<(usize, usize), V>;

    closed spec fn view(&self) -> Map<(usize, usize), V> {
        Map::new(
            |p: (usize, usize)| p.0 < self.rows@.len() && self.rows@[p.0 as int]@.contains_key(p.1),
            |p: (usize, usize)| self.rows@[p.0 as int]@[p.1],
        )
    }
}

impl<V> PairMap<V> {
    pub fn new() -> (map: Self)
        ensures
            map@ == Map::<(usize, usize), V>::empty(),
    {
        let map = PairMap { rows: Vec::new() };
        assert(map@ =~= Map::<(usize, usize), V>::empty());
        map
    }

    pub fn get(&self, first: usize, second: usize) -> (value: Option<&V>)
        ensures
            value == (if self@.contains_key((first, second)) {
                Some(&self@[(first, second)])
            } else {
                None
            }),
    {
        if first < self.rows.len() {
            self.rows[first].get(second)
        } else {
            None
        }
    }

    /// Binds the pair to `value`, replacing what it was bound to before.
    pub fn insert(&mut self, first: usize, second: usize, value: V)
        ensures
            final(self)@ == old(self)@.insert((first, second), value),
    {
        while self.rows.len() <= first
            invariant
                self@ == old(self)@,
            decreases first + 1 - self.rows.len(),
        {
            let ghost before = self@;
            self.rows.push(DenseMap::new());
            assert(self@ =~= before);
        }
        self.rows[first].insert(second, value);
        assert(self@ =~= old(self)@.insert((first, second), value));
    }
}

} // verus!
